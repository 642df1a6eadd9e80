//! The Lotto Lunes contract: a lottery whose players pick six numbers from
//! 1 to 60 per ticket, pay the ticket price plus a fee, and collect a prize
//! by the number of their picks that the draw holds.

use vstd::prelude::*;
use crate::common::{AccountId, Transfer, OwnerError, contains_account, is_owner, number_from_seed, spec_number_from_seed, hits, count_hits, vec_contains};
use crate::table::Table;

verus! {

/// One ticket: six picked numbers and its payout record.
#[derive(Clone, Copy, Debug, PartialEq, Eq, Structural)]
pub struct ListNumRaffle {
    pub num_1: u64,
    pub num_2: u64,
    pub num_3: u64,
    pub num_4: u64,
    pub num_5: u64,
    pub num_6: u64,
    pub is_payment: bool,
    pub value_award: u128,
}

impl ListNumRaffle {
    /// The six numbers of the ticket, in order.
    pub open spec fn numbers(self) -> Seq<u64> {
        seq![self.num_1, self.num_2, self.num_3, self.num_4, self.num_5, self.num_6]
    }

    /// The six numbers of the ticket, in order.
    pub fn numbers_vec(&self) -> (r: Vec<u64>)
        ensures
            r@ == self.numbers(),
    {
        let mut v: Vec<u64> = Vec::new();
        v.push(self.num_1);
        v.push(self.num_2);
        v.push(self.num_3);
        v.push(self.num_4);
        v.push(self.num_5);
        v.push(self.num_6);
        assert(v@ =~= self.numbers());
        v
    }
}

/// The snapshot of the contract that `info_contract` reports.
#[derive(Clone, Copy, Debug, PartialEq, Eq, Structural)]
pub struct InfoContract {
    pub tx_lunes: u64,
    pub date_raffle: u64,
    pub status: bool,
    pub raffle_id: u64,
    pub total_accumulated: u128,
}

/// The prizes of one raffle: the award of a ticket by its number of hits,
/// the number of winners per class, the operator's fee and the pot.
#[derive(Clone, Copy, Debug, PartialEq, Eq, Structural)]
pub struct LottoWin {
    pub date_create: u64,
    pub raffle_id: u64,
    pub value_award_2: u128,
    pub quantity_2: u64,
    pub value_award_3: u128,
    pub quantity_3: u64,
    pub value_award_4: u128,
    pub quantity_4: u64,
    pub value_award_5: u128,
    pub quantity_5: u64,
    pub value_award_6: u128,
    pub quantity_6: u64,
    pub fee_lunes: u128,
    pub total_accumulated: u128,
    pub total_accumulated_next: u128,
}

/// The refusals of the contract.
#[derive(Clone, Copy, Debug, PartialEq, Eq, Structural)]
pub enum LunesError {
    BadMintValue,
    DrawNotStarted,
    WithdrawalFailed,
    NumRepeating,
    NumInvalid,
    NumSuper60,
    InvalidPage,
    BackRaffleNotFound,
    RaffleNotActive,
    PaymentExpired,
    DrawNotFinish,
    NotAuthorized,
}

impl LunesError {
    /// The name of the variant.
    pub open spec fn name(self) -> Seq<char> {
        match self {
            LunesError::BadMintValue => "BadMintValue"@,
            LunesError::DrawNotStarted => "DrawNotStarted"@,
            LunesError::DrawNotFinish => "DrawNotFinish"@,
            LunesError::WithdrawalFailed => "WithdrawalFailed"@,
            LunesError::NumRepeating => "NumRepeating"@,
            LunesError::NumInvalid => "NumInvalid"@,
            LunesError::NumSuper60 => "NumSuper60"@,
            LunesError::InvalidPage => "InvalidPage"@,
            LunesError::BackRaffleNotFound => "BackRaffleNotFound"@,
            LunesError::RaffleNotActive => "RaffleNotActive"@,
            LunesError::PaymentExpired => "PaymentExpired"@,
            LunesError::NotAuthorized => "NotAuthorized"@,
        }
    }

    /// The name of the variant, as the message that the contract reports.
    pub fn as_str(&self) -> (r: String)
        ensures
            r@ == self.name(),
    {
        match self {
            LunesError::BadMintValue => "BadMintValue".to_owned(),
            LunesError::DrawNotStarted => "DrawNotStarted".to_owned(),
            LunesError::DrawNotFinish => "DrawNotFinish".to_owned(),
            LunesError::WithdrawalFailed => "WithdrawalFailed".to_owned(),
            LunesError::NumRepeating => "NumRepeating".to_owned(),
            LunesError::NumInvalid => "NumInvalid".to_owned(),
            LunesError::NumSuper60 => "NumSuper60".to_owned(),
            LunesError::InvalidPage => "InvalidPage".to_owned(),
            LunesError::BackRaffleNotFound => "BackRaffleNotFound".to_owned(),
            LunesError::RaffleNotActive => "RaffleNotActive".to_owned(),
            LunesError::PaymentExpired => "PaymentExpired".to_owned(),
            LunesError::NotAuthorized => "NotAuthorized".to_owned(),
        }
    }
}

/// Whether some number occurs twice in `s`.
pub open spec fn has_repeat(s: Seq<u64>) -> bool {
    exists|i: int, j: int| 0 <= i < j < s.len() && s[i] == s[j]
}

/// What is wrong with a ticket, if anything: a repeated number comes first,
/// then a zero, then a number above 60.
pub open spec fn ticket_fault(t: ListNumRaffle) -> Option<LunesError> {
    let s = t.numbers();
    if has_repeat(s) {
        Some(LunesError::NumRepeating)
    } else if s.contains(0) {
        Some(LunesError::NumInvalid)
    } else if exists|i: int| 0 <= i < s.len() && s[i] > 60 {
        Some(LunesError::NumSuper60)
    } else {
        None
    }
}

/// The fault of the first faulty ticket of `s`, if any.
pub open spec fn first_fault(s: Seq<ListNumRaffle>) -> Option<LunesError>
    decreases s.len(),
{
    if s.len() == 0 {
        None
    } else {
        let before = first_fault(s.drop_last());
        if before is Some {
            before
        } else {
            ticket_fault(s.last())
        }
    }
}

/// What `n` tickets cost: their price plus the fee, `tx` percent of it,
/// rounded down.
pub open spec fn ticket_charge(price: u128, n: nat, tx: u64) -> int {
    price * n + (price * n * tx) / 100
}

/// Whether the arithmetic that prices `n` tickets stays within `u128`.
pub open spec fn charge_fits(price: u128, n: nat, tx: u64) -> bool {
    &&& price * n <= u128::MAX
    &&& price * n * tx <= u128::MAX
    &&& ticket_charge(price, n, tx) <= u128::MAX
}

/// The tickets recorded under `key` (a player and a raffle): none, when it has no entry.
pub open spec fn games_of(players: Map<(AccountId, u64), Seq<ListNumRaffle>>, key: (AccountId, u64)) -> Seq<ListNumRaffle> {
    if players.contains_key(key) {
        players[key]
    } else {
        Seq::empty()
    }
}

/// What a ticket's faults are, computed.
pub fn ticket_fault_of(t: &ListNumRaffle) -> (r: Option<LunesError>)
    ensures
        r == ticket_fault(*t),
{
    let v = t.numbers_vec();
    let mut i: usize = 0;
    while i < 6
        invariant
            v@ == t.numbers(),
            i <= 6,
            forall|a: int, b: int| 0 <= a < i && a < b < 6 ==> v@[a] != v@[b],
        decreases 6 - i,
    {
        let mut j: usize = i + 1;
        while j < 6
            invariant
                v@ == t.numbers(),
                i < 6,
                i < j <= 6,
                forall|a: int, b: int| 0 <= a < i && a < b < 6 ==> v@[a] != v@[b],
                forall|b: int| i < b < j ==> v@[i as int] != v@[b],
            decreases 6 - j,
        {
            if v[i] == v[j] {
                assert(has_repeat(t.numbers()));
                return Some(LunesError::NumRepeating);
            }
            j = j + 1;
        }
        i = i + 1;
    }
    assert(!has_repeat(t.numbers()));
    let mut k: usize = 0;
    while k < 6
        invariant
            v@ == t.numbers(),
            !has_repeat(t.numbers()),
            k <= 6,
            forall|a: int| 0 <= a < k ==> v@[a] != 0,
        decreases 6 - k,
    {
        if v[k] == 0 {
            assert(t.numbers()[k as int] == 0);
            assert(t.numbers().contains(0));
            return Some(LunesError::NumInvalid);
        }
        k = k + 1;
    }
    assert(!t.numbers().contains(0));
    let mut m: usize = 0;
    while m < 6
        invariant
            v@ == t.numbers(),
            !has_repeat(t.numbers()),
            !t.numbers().contains(0),
            m <= 6,
            forall|a: int| 0 <= a < m ==> v@[a] <= 60,
        decreases 6 - m,
    {
        if v[m] > 60 {
            assert(t.numbers()[m as int] > 60);
            return Some(LunesError::NumSuper60);
        }
        m = m + 1;
    }
    None
}

/// The storage of the contract.
pub struct Data {
    pub account_do_lotto: Vec<AccountId>,
    pub next_id: u64,
    pub date_raffle: u64,
    pub price: u128,
    pub status: bool,
    pub players: Table<(AccountId, u64), ListNumRaffle>,
    pub num_raffle: Table<u64, ListNumRaffle>,
    pub winners: Table<u64, LottoWin>,
    pub tx_lunes: u64,
    pub total_accumulated: u128,
}

impl Data {
    /// Every table keeps one entry per key.
    pub open spec fn wf(&self) -> bool {
        &&& self.players.wf()
        &&& self.num_raffle.wf()
        &&& self.winners.wf()
    }

    /// What `check_amount` answers.
    pub open spec fn spec_check_amount(&self, transferred: u128, tickets: Seq<ListNumRaffle>) -> Result<(), LunesError> {
        if !self.status {
            Err(LunesError::RaffleNotActive)
        } else if ticket_charge(self.price, tickets.len(), self.tx_lunes) <= transferred {
            match first_fault(tickets) {
                Some(e) => Err(e),
                None => Ok(()),
            }
        } else {
            Err(LunesError::BadMintValue)
        }
    }

    /// Checks a purchase: the raffle must be open, the payment must cover
    /// the tickets with the fee, and every ticket must hold six distinct
    /// numbers from 1 to 60.
    pub fn check_amount(&self, transferred_value: u128, num_raffle: &Vec<ListNumRaffle>) -> (r: Result<(), LunesError>)
        requires
            self.status ==> charge_fits(self.price, num_raffle@.len(), self.tx_lunes),
        ensures
            r == self.spec_check_amount(transferred_value, num_raffle@),
    {
        if !self.status {
            return Err(LunesError::RaffleNotActive);
        }
        let n = num_raffle.len() as u128;
        let mut price_total = self.price * n;
        let tx_lunes = self.tx_lunes;
        let tax_lunes: u128 = (price_total * (tx_lunes as u128)) / 100;
        price_total = price_total + tax_lunes;
        assert(price_total == ticket_charge(self.price, num_raffle@.len(), self.tx_lunes));
        if price_total <= transferred_value {
            let mut i: usize = 0;
            while i < num_raffle.len()
                invariant
                    i <= num_raffle@.len(),
                    self.status,
                    ticket_charge(self.price, num_raffle@.len(), self.tx_lunes) <= transferred_value,
                    first_fault(num_raffle@.take(i as int)) is None,
                decreases num_raffle.len() - i,
            {
                let fault = ticket_fault_of(&num_raffle[i]);
                assert(num_raffle@.take(i + 1).drop_last() =~= num_raffle@.take(i as int));
                match fault {
                    Some(e) => {
                        assert(first_fault(num_raffle@.take(i + 1)) == Some(e));
                        proof {
                            lemma_first_fault_prefix(num_raffle@, i as int + 1);
                        }
                        return Err(e);
                    },
                    None => {},
                }
                i = i + 1;
            }
            assert(num_raffle@.take(num_raffle@.len() as int) =~= num_raffle@);
            return Ok(());
        }
        Err(LunesError::BadMintValue)
    }

    /// Records tickets for player `to` in the current raffle, before the
    /// tickets it already holds there.
    pub fn create_ticket(&mut self, to: AccountId, num_raffle: Vec<ListNumRaffle>) -> (r: Result<(), LunesError>)
        requires
            old(self).wf(),
        ensures
            r is Ok,
            final(self).wf(),
            final(self).players@ == old(self).players@.insert(
                (to, old(self).next_id),
                num_raffle@ + games_of(old(self).players@, (to, old(self).next_id)),
            ),
            final(self).same_but_tables(*old(self)),
            final(self).num_raffle@ == old(self).num_raffle@,
            final(self).winners@ == old(self).winners@,
    {
        let lotto_id = self.next_id;
        let key = (to, lotto_id);
        let games = self.players.get(&key);
        let mut tickets = num_raffle;
        match games {
            Some(earlier) => {
                let mut i: usize = 0;
                let ghost start = tickets@;
                while i < earlier.len()
                    invariant
                        i <= earlier@.len(),
                        tickets@ == start + earlier@.take(i as int),
                    decreases earlier.len() - i,
                {
                    tickets.push(earlier[i]);
                    i = i + 1;
                    assert(tickets@ =~= start + earlier@.take(i as int));
                }
                assert(earlier@.take(earlier@.len() as int) =~= earlier@);
            },
            None => {
                assert(tickets@ =~= tickets@ + Seq::<ListNumRaffle>::empty());
            },
        }
        self.players.insert(key, tickets);
        Ok(())
    }

    /// Everything but the pot and the prize table is as in `other`.
    pub open spec fn same_but_pot(&self, other: Data) -> bool {
        &&& self.account_do_lotto@ == other.account_do_lotto@
        &&& self.next_id == other.next_id
        &&& self.date_raffle == other.date_raffle
        &&& self.price == other.price
        &&& self.status == other.status
        &&& self.tx_lunes == other.tx_lunes
        &&& self.players@ == other.players@
        &&& self.num_raffle@ == other.num_raffle@
    }

    /// Everything but the fee is as in `other`.
    pub open spec fn same_but_fee(&self, other: Data) -> bool {
        &&& self.account_do_lotto@ == other.account_do_lotto@
        &&& self.next_id == other.next_id
        &&& self.date_raffle == other.date_raffle
        &&& self.price == other.price
        &&& self.status == other.status
        &&& self.total_accumulated == other.total_accumulated
        &&& self.players@ == other.players@
        &&& self.num_raffle@ == other.num_raffle@
        &&& self.winners@ == other.winners@
    }

    /// Everything but the three tables is as in `other`.
    pub open spec fn same_but_tables(&self, other: Data) -> bool {
        &&& self.account_do_lotto@ == other.account_do_lotto@
        &&& self.next_id == other.next_id
        &&& self.date_raffle == other.date_raffle
        &&& self.price == other.price
        &&& self.status == other.status
        &&& self.tx_lunes == other.tx_lunes
        &&& self.total_accumulated == other.total_accumulated
    }
}

/// If the first `i` tickets hold a fault, the whole list's first fault is theirs.
pub proof fn lemma_first_fault_prefix(s: Seq<ListNumRaffle>, i: int)
    requires
        0 <= i <= s.len(),
        first_fault(s.take(i)) is Some,
    ensures
        first_fault(s) == first_fault(s.take(i)),
    decreases s.len() - i,
{
    if i < s.len() {
        assert(s.take(i + 1).drop_last() =~= s.take(i));
        lemma_first_fault_prefix(s, i + 1);
    } else {
        assert(s.take(i) =~= s);
    }
}

/// The draw of the contract, as it goes on from an increment and the
/// numbers found so far: each step seeds with the block time and number
/// shifted by the time plus the increment, takes a number from 1 to 60,
/// adds it to the increment and keeps it if it is new, until six are
/// found. `None` when an addition leaves `u64` on the way.
pub open spec fn lotto_draw(now: u64, block: u32, increment: u64, found: Seq<u64>) -> Option<Seq<u64>>
    decreases u64::MAX - increment, 6 - found.len(),
    when found.len() <= 6
{
    if found.len() >= 6 {
        Some(found)
    } else if now + increment > u64::MAX {
        None
    } else {
        let s = now + increment;
        if now + s > u64::MAX || block + s > u64::MAX {
            None
        } else {
            let x = ((now + s) as u64) ^ ((block + s) as u64);
            let n = spec_number_from_seed(x);
            if increment + n > u64::MAX {
                None
            } else {
                let next = (increment + n) as u64;
                if found.contains(n) {
                    lotto_draw(now, block, next, found)
                } else {
                    lotto_draw(now, block, next, found.push(n))
                }
            }
        }
    }
}

/// Whether `s` holds distinct lottery numbers, each from 1 to 60.
pub open spec fn distinct_lotto_numbers(s: Seq<u64>) -> bool {
    &&& forall|i: int| 0 <= i < s.len() ==> 1 <= #[trigger] s[i] <= 60
    &&& forall|i: int, j: int| 0 <= i < j < s.len() ==> s[i] != s[j]
}

/// A completed draw holds six distinct numbers from 1 to 60.
pub proof fn lemma_lotto_draw_numbers(now: u64, block: u32, increment: u64, found: Seq<u64>)
    requires
        found.len() <= 6,
        distinct_lotto_numbers(found),
    ensures
        lotto_draw(now, block, increment, found) matches Some(v) ==> v.len() == 6 && distinct_lotto_numbers(v),
    decreases u64::MAX - increment, 6 - found.len(),
{
    if found.len() < 6 && now + increment <= u64::MAX {
        let s = (now + increment) as u64;
        if now + s <= u64::MAX && block + s <= u64::MAX {
            let x = ((now + s) as u64) ^ ((block + s) as u64);
            let n = spec_number_from_seed(x);
            if increment + n <= u64::MAX {
                let next = (increment + n) as u64;
                if found.contains(n) {
                    lemma_lotto_draw_numbers(now, block, next, found);
                } else {
                    let pushed = found.push(n);
                    assert forall|i: int, j: int| 0 <= i < j < pushed.len() implies pushed[i] != pushed[j] by {
                        if j == pushed.len() - 1 {
                            assert(found[i] == pushed[i]);
                        }
                    }
                    lemma_lotto_draw_numbers(now, block, next, pushed);
                }
            }
        }
    }
}

/// The contract: its storage and the owner that `only_owner` checks against.
pub struct LottoLunesContract {
    pub payable_lotto: Data,
    pub owner: Option<AccountId>,
}

impl LottoLunesContract {
    pub open spec fn wf(&self) -> bool {
        self.payable_lotto.wf()
    }

    /// Creates the contract with an open raffle; its caller, the deployer,
    /// becomes the owner.
    pub fn new(caller: AccountId, date_raffle: u64, price: u128, tx_fee: u64) -> (r: Self)
        ensures
            r.wf(),
            r.owner == Some(caller),
            r.payable_lotto.account_do_lotto@ == Seq::<AccountId>::empty(),
            r.payable_lotto.next_id == 1,
            r.payable_lotto.date_raffle == date_raffle,
            r.payable_lotto.price == price,
            r.payable_lotto.status,
            r.payable_lotto.tx_lunes == tx_fee,
            r.payable_lotto.total_accumulated == 0,
            r.payable_lotto.players@ == Map::<(AccountId, u64), Seq<ListNumRaffle>>::empty(),
            r.payable_lotto.num_raffle@ == Map::<u64, Seq<ListNumRaffle>>::empty(),
            r.payable_lotto.winners@ == Map::<u64, Seq<LottoWin>>::empty(),
    {
        LottoLunesContract {
            payable_lotto: Data {
                account_do_lotto: Vec::new(),
                next_id: 1,
                date_raffle,
                price,
                status: true,
                players: Table::new(),
                num_raffle: Table::new(),
                winners: Table::new(),
                tx_lunes: tx_fee,
                total_accumulated: 0,
            },
            owner: Some(caller),
        }
    }

    /// Buys tickets for `caller`, who sent `transferred_value`. The price of
    /// the tickets stays in the contract; everything above it goes to the
    /// owner, by the transfer returned.
    pub fn play_lunes(&mut self, caller: AccountId, transferred_value: u128, num_rifle: Vec<ListNumRaffle>) -> (r: Result<Transfer, LunesError>)
        requires
            old(self).wf(),
            old(self).payable_lotto.status ==> charge_fits(old(self).payable_lotto.price, num_rifle@.len(), old(self).payable_lotto.tx_lunes),
            old(self).payable_lotto.spec_check_amount(transferred_value, num_rifle@) is Ok ==> old(self).owner is Some,
        ensures
            final(self).wf(),
            final(self).owner == old(self).owner,
            match r {
                Ok(t) => {
                    &&& old(self).payable_lotto.spec_check_amount(transferred_value, num_rifle@) is Ok
                    &&& t == Transfer {
                        to: old(self).owner.unwrap(),
                        amount: (transferred_value - old(self).payable_lotto.price * num_rifle@.len()) as u128,
                    }
                    &&& t.amount + old(self).payable_lotto.price * num_rifle@.len() == transferred_value
                    &&& t.amount >= old(self).payable_lotto.price * num_rifle@.len() * old(self).payable_lotto.tx_lunes / 100
                    &&& final(self).payable_lotto.players@ == old(self).payable_lotto.players@.insert(
                        (caller, old(self).payable_lotto.next_id),
                        num_rifle@ + games_of(old(self).payable_lotto.players@, (caller, old(self).payable_lotto.next_id)),
                    )
                    &&& final(self).payable_lotto.same_but_tables(old(self).payable_lotto)
                    &&& final(self).payable_lotto.num_raffle@ == old(self).payable_lotto.num_raffle@
                    &&& final(self).payable_lotto.winners@ == old(self).payable_lotto.winners@
                    &&& players_valid(old(self).payable_lotto.players@) ==> players_valid(final(self).payable_lotto.players@)
                },
                Err(e) => {
                    &&& old(self).payable_lotto.spec_check_amount(transferred_value, num_rifle@) == Err::<(), LunesError>(e)
                    &&& *final(self) == *old(self)
                },
            },
    {
        match self.payable_lotto.check_amount(transferred_value, &num_rifle) {
            Err(e) => return Err(e),
            Ok(()) => {},
        }
        let price_total = self.payable_lotto.price * (num_rifle.len() as u128);
        let tx_lunes = transferred_value - price_total;
        let owner = self.owner.unwrap();
        proof {
            if players_valid(self.payable_lotto.players@) {
                law_purchase_keeps_tickets_valid(self.payable_lotto.players@, (caller, self.payable_lotto.next_id), num_rifle@);
            }
        }
        let _ = self.payable_lotto.create_ticket(caller, num_rifle);
        Ok(Transfer { to: owner, amount: tx_lunes })
    }

    /// Opens the next raffle at `price`; only an account in
    /// `account_do_lotto` may, once the last raffle is drawn, and not with a
    /// date already past. The raffle takes the date given, and the value
    /// sent joins the pot.
    pub fn create_raffle_lotto(&mut self, caller: AccountId, now: u64, transferred_value: u128, date_raffle: u64, price: u128) -> (r: Result<(), LunesError>)
        requires
            old(self).wf(),
            (!old(self).payable_lotto.status && now <= date_raffle
                && old(self).payable_lotto.account_do_lotto@.contains(caller)) ==> {
                &&& old(self).payable_lotto.next_id < u64::MAX
                &&& old(self).payable_lotto.total_accumulated + transferred_value <= u128::MAX
            },
        ensures
            final(self).wf(),
            final(self).owner == old(self).owner,
            r == (if old(self).payable_lotto.status {
                Err(LunesError::DrawNotFinish)
            } else if now > date_raffle {
                Err(LunesError::NumInvalid)
            } else if !old(self).payable_lotto.account_do_lotto@.contains(caller) {
                Err(LunesError::NotAuthorized)
            } else {
                Ok(())
            }),
            r is Err ==> *final(self) == *old(self),
            r is Ok ==> {
                &&& final(self).payable_lotto.next_id == old(self).payable_lotto.next_id + 1
                &&& final(self).payable_lotto.total_accumulated == old(self).payable_lotto.total_accumulated + transferred_value
                &&& final(self).payable_lotto.status
                &&& final(self).payable_lotto.price == price
                &&& final(self).payable_lotto.date_raffle == date_raffle
                &&& final(self).payable_lotto.tx_lunes == old(self).payable_lotto.tx_lunes
                &&& final(self).payable_lotto.account_do_lotto@ == old(self).payable_lotto.account_do_lotto@
                &&& final(self).payable_lotto.players@ == old(self).payable_lotto.players@
                &&& final(self).payable_lotto.num_raffle@ == old(self).payable_lotto.num_raffle@
                &&& final(self).payable_lotto.winners@ == old(self).payable_lotto.winners@
            },
    {
        if self.payable_lotto.status {
            return Err(LunesError::DrawNotFinish);
        }
        if now > date_raffle {
            return Err(LunesError::NumInvalid);
        }
        if !contains_account(&self.payable_lotto.account_do_lotto, &caller) {
            return Err(LunesError::NotAuthorized);
        }
        self.payable_lotto.next_id = self.payable_lotto.next_id + 1;
        self.payable_lotto.total_accumulated = self.payable_lotto.total_accumulated + transferred_value;
        self.payable_lotto.status = true;
        self.payable_lotto.price = price;
        self.payable_lotto.date_raffle = date_raffle;
        Ok(())
    }

    /// Adds the value sent to the pot.
    pub fn add_accumulated(&mut self, transferred_value: u128) -> (r: Result<(), ()>)
        requires
            old(self).wf(),
            old(self).payable_lotto.total_accumulated + transferred_value <= u128::MAX,
        ensures
            r is Ok,
            final(self).wf(),
            final(self).owner == old(self).owner,
            final(self).payable_lotto.total_accumulated == old(self).payable_lotto.total_accumulated + transferred_value,
            final(self).payable_lotto.same_but_pot(old(self).payable_lotto),
            final(self).payable_lotto.winners@ == old(self).payable_lotto.winners@,
    {
        self.payable_lotto.total_accumulated = self.payable_lotto.total_accumulated + transferred_value;
        Ok(())
    }

    /// The seed of the draw: the block time and the block number, each
    /// shifted by `seed`, combined by exclusive or.
    pub fn seed(&self, now: u64, block: u32, seed: u64) -> (r: u64)
        requires
            now + seed <= u64::MAX,
            block + seed <= u64::MAX,
        ensures
            r == ((now + seed) as u64) ^ ((block + seed) as u64),
    {
        let timestamp = now + seed;
        let block_number = block as u64 + seed;
        timestamp ^ block_number
    }

    /// Draws six distinct numbers from 1 to 60 at block time `now` and
    /// block number `block`; `None` where an addition on the way leaves
    /// `u64`, at which the contract stops. Where the seeds of the steps
    /// keep giving the same few numbers (as with a block time and number
    /// of 0), the loop runs until the increment leaves `u64`.
    pub fn random(&self, now: u64, block: u32) -> (r: Option<Vec<u64>>)
        ensures
            match r {
                Some(v) => lotto_draw(now, block, 0, Seq::empty()) == Some(v@),
                None => lotto_draw(now, block, 0, Seq::empty()) is None,
            },
            r matches Some(v) ==> v@.len() == 6 && distinct_lotto_numbers(v@),
    {
        proof {
            lemma_lotto_draw_numbers(now, block, 0, Seq::empty());
        }
        let mut unique_numbers: Vec<u64> = Vec::new();
        let mut increment: u64 = 0;
        while unique_numbers.len() < 6
            invariant
                unique_numbers@.len() <= 6,
                lotto_draw(now, block, increment, unique_numbers@) == lotto_draw(now, block, 0, Seq::empty()),
            decreases u64::MAX - increment,
        {
            if now > u64::MAX - increment {
                return None;
            }
            let s = now + increment;
            if now > u64::MAX - s || block as u64 > u64::MAX - s {
                return None;
            }
            let x = self.seed(now, block, s);
            let random_number = number_from_seed(x);
            if increment > u64::MAX - random_number {
                return None;
            }
            increment = increment + random_number;
            if !vec_contains(&unique_numbers, random_number) {
                unique_numbers.push(random_number);
            }
        }
        Some(unique_numbers)
    }

    /// The owner's draw of six numbers, outside any raffle.
    pub fn random_lotto(&self, caller: AccountId, now: u64, block: u32) -> (r: Result<Vec<u64>, OwnerError>)
        requires
            self.owner == Some(caller) ==> lotto_draw(now, block, 0, Seq::empty()) is Some,
        ensures
            match r {
                Ok(v) => self.owner == Some(caller) && lotto_draw(now, block, 0, Seq::empty()) == Some(v@),
                Err(e) => self.owner != Some(caller) && e == OwnerError::CallerIsNotOwner,
            },
    {
        if !is_owner(&self.owner, &caller) {
            return Err(OwnerError::CallerIsNotOwner);
        }
        Ok(self.random(now, block).unwrap())
    }

    /// Draws the current raffle once its date has come: closes it and
    /// records the six numbers drawn as a paid entry with no award.
    pub fn do_raffle_lotto(&mut self, now: u64, block: u32) -> (r: Result<Vec<u64>, LunesError>)
        requires
            old(self).wf(),
            (old(self).payable_lotto.status && now >= old(self).payable_lotto.date_raffle)
                ==> lotto_draw(now, block, 0, Seq::empty()) is Some,
        ensures
            final(self).wf(),
            final(self).owner == old(self).owner,
            match r {
                Ok(v) => {
                    &&& old(self).payable_lotto.status
                    &&& now >= old(self).payable_lotto.date_raffle
                    &&& lotto_draw(now, block, 0, Seq::empty()) == Some(v@)
                    &&& v@.len() == 6 && distinct_lotto_numbers(v@)
                    &&& !final(self).payable_lotto.status
                    &&& final(self).payable_lotto.num_raffle@ == old(self).payable_lotto.num_raffle@.insert(
                        old(self).payable_lotto.next_id,
                        seq![drawn_record(v@)],
                    )
                    &&& final(self).payable_lotto.players@ == old(self).payable_lotto.players@
                    &&& final(self).payable_lotto.winners@ == old(self).payable_lotto.winners@
                    &&& final(self).payable_lotto.account_do_lotto@ == old(self).payable_lotto.account_do_lotto@
                    &&& final(self).payable_lotto.next_id == old(self).payable_lotto.next_id
                    &&& final(self).payable_lotto.date_raffle == old(self).payable_lotto.date_raffle
                    &&& final(self).payable_lotto.price == old(self).payable_lotto.price
                    &&& final(self).payable_lotto.tx_lunes == old(self).payable_lotto.tx_lunes
                    &&& final(self).payable_lotto.total_accumulated == old(self).payable_lotto.total_accumulated
                },
                Err(e) => {
                    &&& e == LunesError::DrawNotStarted
                    &&& (!old(self).payable_lotto.status || now < old(self).payable_lotto.date_raffle)
                    &&& *final(self) == *old(self)
                },
            },
    {
        if !self.payable_lotto.status {
            return Err(LunesError::DrawNotStarted);
        }
        let date_raffle = self.payable_lotto.date_raffle;
        let raffle_id = self.payable_lotto.next_id;
        if now < date_raffle {
            return Err(LunesError::DrawNotStarted);
        }
        self.payable_lotto.status = false;
        let num_raffle = self.random(now, block).unwrap();
        let mut vec_num: Vec<ListNumRaffle> = Vec::new();
        vec_num.push(ListNumRaffle {
            is_payment: true,
            value_award: 0,
            num_1: num_raffle[0],
            num_2: num_raffle[1],
            num_3: num_raffle[2],
            num_4: num_raffle[3],
            num_5: num_raffle[4],
            num_6: num_raffle[5],
        });
        assert(vec_num@ =~= seq![drawn_record(num_raffle@)]);
        self.payable_lotto.num_raffle.insert(raffle_id, vec_num);
        Ok(num_raffle)
    }

    /// Sets the fee, in percent of the ticket price; owner only.
    pub fn change_tx(&mut self, caller: AccountId, new_tx: u64) -> (r: Result<(), OwnerError>)
        requires
            old(self).wf(),
        ensures
            final(self).wf(),
            final(self).owner == old(self).owner,
            match r {
                Ok(()) => {
                    &&& old(self).owner == Some(caller)
                    &&& final(self).payable_lotto.tx_lunes == new_tx
                    &&& final(self).payable_lotto.same_but_fee(old(self).payable_lotto)
                },
                Err(e) => {
                    &&& old(self).owner != Some(caller)
                    &&& e == OwnerError::CallerIsNotOwner
                    &&& *final(self) == *old(self)
                },
            },
    {
        if !is_owner(&self.owner, &caller) {
            return Err(OwnerError::CallerIsNotOwner);
        }
        self.payable_lotto.tx_lunes = new_tx;
        Ok(())
    }

    /// The fee, the raffle date, whether a raffle is open, the current
    /// raffle and the pot.
    pub fn info_contract(&self) -> (r: Result<InfoContract, ()>)
        ensures
            r == Ok::<InfoContract, ()>(InfoContract {
                tx_lunes: self.payable_lotto.tx_lunes,
                date_raffle: self.payable_lotto.date_raffle,
                status: self.payable_lotto.status,
                raffle_id: self.payable_lotto.next_id,
                total_accumulated: self.payable_lotto.total_accumulated,
            }),
    {
        Ok(InfoContract {
            tx_lunes: self.payable_lotto.tx_lunes,
            date_raffle: self.payable_lotto.date_raffle,
            status: self.payable_lotto.status,
            raffle_id: self.payable_lotto.next_id,
            total_accumulated: self.payable_lotto.total_accumulated,
        })
    }

    /// The record of the numbers drawn in raffle `id_raffle`.
    pub fn draw_num_raffle(&self, id_raffle: u64) -> (r: Result<Vec<ListNumRaffle>, LunesError>)
        requires
            self.wf(),
            self.payable_lotto.num_raffle@.contains_key(id_raffle),
        ensures
            r matches Ok(v) && v@ == self.payable_lotto.num_raffle@[id_raffle],
    {
        let number = self.payable_lotto.num_raffle.get(&id_raffle);
        Ok(number.unwrap())
    }

    /// The tickets of `caller` in raffle `id_raffle`.
    pub fn my_play_per_raffle(&self, caller: AccountId, id_raffle: u64) -> (r: Result<Vec<ListNumRaffle>, LunesError>)
        requires
            self.wf(),
            self.payable_lotto.players@.contains_key((caller, id_raffle)),
        ensures
            r matches Ok(v) && v@ == self.payable_lotto.players@[(caller, id_raffle)],
    {
        let games = self.payable_lotto.players.get(&(caller, id_raffle));
        Ok(games.unwrap())
    }

    /// Records the prizes of a raffle, pays the operator's fee to the owner
    /// and sets the pot to what carries over; for accounts in
    /// `account_do_lotto` only, and never for raffle 0.
    pub fn pre_payment_lotto(&mut self, caller: AccountId, lotto_win: LottoWin) -> (r: Result<Transfer, LunesError>)
        requires
            old(self).wf(),
            old(self).payable_lotto.account_do_lotto@.contains(caller) && lotto_win.raffle_id != 0
                ==> old(self).owner is Some,
        ensures
            final(self).wf(),
            final(self).owner == old(self).owner,
            match r {
                Ok(t) => {
                    &&& old(self).payable_lotto.account_do_lotto@.contains(caller)
                    &&& lotto_win.raffle_id != 0
                    &&& t == Transfer { to: old(self).owner.unwrap(), amount: lotto_win.fee_lunes }
                    &&& final(self).payable_lotto.winners@ == old(self).payable_lotto.winners@.insert(
                        lotto_win.raffle_id,
                        seq![lotto_win],
                    )
                    &&& final(self).payable_lotto.total_accumulated == lotto_win.total_accumulated_next
                    &&& final(self).payable_lotto.same_but_pot(old(self).payable_lotto)
                    &&& final(self).payable_lotto.players@ == old(self).payable_lotto.players@
                    &&& final(self).payable_lotto.num_raffle@ == old(self).payable_lotto.num_raffle@
                },
                Err(e) => {
                    &&& e == LunesError::NotAuthorized
                    &&& (!old(self).payable_lotto.account_do_lotto@.contains(caller) || lotto_win.raffle_id == 0)
                    &&& *final(self) == *old(self)
                },
            },
    {
        if !contains_account(&self.payable_lotto.account_do_lotto, &caller) {
            return Err(LunesError::NotAuthorized);
        }
        if lotto_win.raffle_id == 0 {
            return Err(LunesError::NotAuthorized);
        }
        let total_fee = lotto_win.fee_lunes;
        let total_accumulated_next: u128 = lotto_win.total_accumulated_next;
        let id_ = lotto_win.raffle_id;
        let mut vec_win: Vec<LottoWin> = Vec::new();
        vec_win.push(lotto_win);
        assert(vec_win@ =~= seq![lotto_win]);
        self.payable_lotto.winners.insert(id_, vec_win);
        let owner_ = self.owner.unwrap();
        self.payable_lotto.total_accumulated = total_accumulated_next;
        Ok(Transfer { to: owner_, amount: total_fee })
    }

    /// Pays `caller`'s tickets in raffle `id_raffle`, once its prizes are
    /// recorded: every ticket not paid before that holds two to six of the
    /// drawn numbers is marked paid with the award of its class, tickets
    /// paid before are dropped from the player's list, and the sum of the
    /// awards is sent to the player. Nothing changes when that sum is zero.
    /// `None`, with nothing changed, where the contract stops: the draw or
    /// the player's tickets are missing, a ticket wins with no prizes
    /// recorded, or the awards leave `u128`.
    pub fn payment(&mut self, caller: AccountId, id_raffle: u64) -> (r: Option<Result<Option<Transfer>, LunesError>>)
        requires
            old(self).wf(),
        ensures
            final(self).wf(),
            final(self).owner == old(self).owner,
            !old(self).payable_lotto.winners@.contains_key(id_raffle) ==> {
                &&& r == Some(Err::<Option<Transfer>, LunesError>(LunesError::DrawNotStarted))
                &&& *final(self) == *old(self)
            },
            old(self).payable_lotto.winners@.contains_key(id_raffle) && !old(self).payment_defined(caller, id_raffle) ==> {
                &&& r is None
                &&& *final(self) == *old(self)
            },
            old(self).payable_lotto.winners@.contains_key(id_raffle) && old(self).payment_defined(caller, id_raffle) ==> {
                let games = old(self).payable_lotto.players@[(caller, id_raffle)];
                let drawn = old(self).payable_lotto.num_raffle@[id_raffle][0].numbers();
                let w = old(self).payable_lotto.winners@[id_raffle][0];
                let total = games_award(games, drawn, w);
                if total == 0 {
                    &&& r == Some(Ok::<Option<Transfer>, LunesError>(None))
                    &&& *final(self) == *old(self)
                } else {
                    &&& r == Some(Ok::<Option<Transfer>, LunesError>(Some(Transfer { to: caller, amount: total as u128 })))
                    &&& final(self).payable_lotto.players@ == old(self).payable_lotto.players@.insert(
                        (caller, id_raffle),
                        settle_games(games, drawn, w),
                    )
                    &&& final(self).payable_lotto.same_but_tables(old(self).payable_lotto)
                    &&& final(self).payable_lotto.num_raffle@ == old(self).payable_lotto.num_raffle@
                    &&& final(self).payable_lotto.winners@ == old(self).payable_lotto.winners@
                }
            },
    {
        let dranws = self.payable_lotto.winners.get(&id_raffle);
        let item_d = match dranws {
            None => return Some(Err(LunesError::DrawNotStarted)),
            Some(item_d) => item_d,
        };
        let num_raffle = match self.payable_lotto.num_raffle.get(&id_raffle) {
            Some(v) => v,
            None => return None,
        };
        if num_raffle.len() == 0 {
            return None;
        }
        let vet_num_raffle = num_raffle[0].numbers_vec();
        let games = match self.payable_lotto.players.get(&(caller, id_raffle)) {
            Some(g) => g,
            None => return None,
        };
        let ghost drawn = vet_num_raffle@;
        let ghost w = self.payable_lotto.winners@[id_raffle][0];
        let ghost total = games_award(games@, drawn, w);
        let mut total_per_pay_2: u128 = 0;
        let mut total_per_pay_3: u128 = 0;
        let mut total_per_pay_4: u128 = 0;
        let mut total_per_pay_5: u128 = 0;
        let mut total_per_pay_6: u128 = 0;
        let mut vec_mut: Vec<ListNumRaffle> = Vec::new();
        let mut i: usize = 0;
        while i < games.len()
            invariant
                i <= games@.len(),
                self.wf(),
                self.payable_lotto.winners@.contains_key(id_raffle),
                item_d@ == self.payable_lotto.winners@[id_raffle],
                self.payable_lotto.num_raffle@.contains_key(id_raffle),
                self.payable_lotto.num_raffle@[id_raffle].len() > 0,
                drawn == self.payable_lotto.num_raffle@[id_raffle][0].numbers(),
                drawn == vet_num_raffle@,
                self.payable_lotto.players@.contains_key((caller, id_raffle)),
                games@ == self.payable_lotto.players@[(caller, id_raffle)],
                w == self.payable_lotto.winners@[id_raffle][0],
                total == games_award(games@, drawn, w),
                total_per_pay_2 + total_per_pay_3 + total_per_pay_4 + total_per_pay_5 + total_per_pay_6
                    == games_award(games@.take(i as int), drawn, w),
                total_per_pay_2 + total_per_pay_3 + total_per_pay_4 + total_per_pay_5 + total_per_pay_6 <= u128::MAX,
                forall|j: int| 0 <= j < i && !games@[j].is_payment && wins(hits(#[trigger] games@[j].numbers(), drawn))
                    ==> item_d@.len() > 0,
                vec_mut@ == settle_games(games@.take(i as int), drawn, w),
            decreases games.len() - i,
        {
            proof {
                lemma_games_award_prefix(games@, drawn, w, i + 1);
            }
            assert(games@.take(i + 1).drop_last() =~= games@.take(i as int));
            assert(games@.take(i + 1).last() == games@[i as int]);
            let mut game_mut = games[i];
            if game_mut.is_payment == true {
                i = i + 1;
                continue;
            }
            let vet_num_player = game_mut.numbers_vec();
            let matching_numbers = count_hits(&vet_num_player, &vet_num_raffle);
            if 2 <= matching_numbers && matching_numbers <= 6 {
                assert(any_unpaid_win(games@, drawn)) by {
                    assert(!games@[i as int].is_payment && wins(hits(games@[i as int].numbers(), drawn)));
                }
                if item_d.len() == 0 {
                    return None;
                }
                let award = award_of(&item_d[0], matching_numbers);
                let sum = add_awards(total_per_pay_2, total_per_pay_3, total_per_pay_4, total_per_pay_5, total_per_pay_6);
                if sum > u128::MAX - award {
                    return None;
                }
            }
            if matching_numbers == 2 {
                total_per_pay_2 = total_per_pay_2 + item_d[0].value_award_2;
                game_mut.value_award = item_d[0].value_award_2;
                game_mut.is_payment = true;
            } else if matching_numbers == 3 {
                total_per_pay_3 = total_per_pay_3 + item_d[0].value_award_3;
                game_mut.value_award = item_d[0].value_award_3;
                game_mut.is_payment = true;
            } else if matching_numbers == 4 {
                total_per_pay_4 = total_per_pay_4 + item_d[0].value_award_4;
                game_mut.value_award = item_d[0].value_award_4;
                game_mut.is_payment = true;
            } else if matching_numbers == 5 {
                total_per_pay_5 = total_per_pay_5 + item_d[0].value_award_5;
                game_mut.value_award = item_d[0].value_award_5;
                game_mut.is_payment = true;
            } else if matching_numbers == 6 {
                total_per_pay_6 = total_per_pay_6 + item_d[0].value_award_6;
                game_mut.value_award = item_d[0].value_award_6;
                game_mut.is_payment = true;
            }
            vec_mut.push(game_mut);
            i = i + 1;
        }
        assert(games@.take(games@.len() as int) =~= games@);
        assert(any_unpaid_win(games@, drawn) ==> item_d@.len() > 0);
        let mut value_award_total: u128 = 0;
        if total_per_pay_2 != 0 {
            value_award_total = value_award_total + total_per_pay_2;
        }
        if total_per_pay_3 != 0 {
            value_award_total = value_award_total + total_per_pay_3;
        }
        if total_per_pay_4 != 0 {
            value_award_total = value_award_total + total_per_pay_4;
        }
        if total_per_pay_5 != 0 {
            value_award_total = value_award_total + total_per_pay_5;
        }
        if total_per_pay_6 != 0 {
            value_award_total = value_award_total + total_per_pay_6;
        }
        if value_award_total != 0 {
            self.payable_lotto.players.insert((caller, id_raffle), vec_mut);
            return Some(Ok(Some(Transfer { to: caller, amount: value_award_total })));
        }
        Some(Ok(None))
    }

    /// What `payment` needs of the storage once the prizes of `id_raffle`
    /// are recorded: the draw and the player's tickets are there, the
    /// prizes are there when some ticket wins, and the awards fit in `u128`.
    pub open spec fn payment_defined(&self, caller: AccountId, id_raffle: u64) -> bool {
        let data = self.payable_lotto;
        &&& data.num_raffle@.contains_key(id_raffle)
        &&& data.num_raffle@[id_raffle].len() > 0
        &&& data.players@.contains_key((caller, id_raffle))
        &&& {
            let games = data.players@[(caller, id_raffle)];
            let drawn = data.num_raffle@[id_raffle][0].numbers();
            let w = data.winners@[id_raffle][0];
            &&& any_unpaid_win(games, drawn) ==> data.winners@[id_raffle].len() > 0
            &&& games_award(games, drawn, w) <= u128::MAX
        }
    }

    /// Adds an account that may open raffles and record prizes; owner only.
    pub fn add_account_lotto(&mut self, caller: AccountId, account: AccountId) -> (r: Result<(), OwnerError>)
        requires
            old(self).wf(),
        ensures
            final(self).wf(),
            final(self).owner == old(self).owner,
            match r {
                Ok(()) => {
                    &&& old(self).owner == Some(caller)
                    &&& final(self).payable_lotto.account_do_lotto@ == old(self).payable_lotto.account_do_lotto@.push(account)
                    &&& final(self).payable_lotto.next_id == old(self).payable_lotto.next_id
                    &&& final(self).payable_lotto.date_raffle == old(self).payable_lotto.date_raffle
                    &&& final(self).payable_lotto.price == old(self).payable_lotto.price
                    &&& final(self).payable_lotto.status == old(self).payable_lotto.status
                    &&& final(self).payable_lotto.tx_lunes == old(self).payable_lotto.tx_lunes
                    &&& final(self).payable_lotto.total_accumulated == old(self).payable_lotto.total_accumulated
                    &&& final(self).payable_lotto.players@ == old(self).payable_lotto.players@
                    &&& final(self).payable_lotto.num_raffle@ == old(self).payable_lotto.num_raffle@
                    &&& final(self).payable_lotto.winners@ == old(self).payable_lotto.winners@
                },
                Err(e) => {
                    &&& old(self).owner != Some(caller)
                    &&& e == OwnerError::CallerIsNotOwner
                    &&& *final(self) == *old(self)
                },
            },
    {
        if !is_owner(&self.owner, &caller) {
            return Err(OwnerError::CallerIsNotOwner);
        }
        self.payable_lotto.account_do_lotto.push(account);
        Ok(())
    }
}

/// Whether a ticket with `h` hits wins a prize: two hits or more.
pub open spec fn wins(h: nat) -> bool {
    2 <= h <= 6
}

/// The award of a ticket with `h` hits under the prizes `w`.
pub open spec fn award_for(w: LottoWin, h: nat) -> u128 {
    if h == 2 {
        w.value_award_2
    } else if h == 3 {
        w.value_award_3
    } else if h == 4 {
        w.value_award_4
    } else if h == 5 {
        w.value_award_5
    } else if h == 6 {
        w.value_award_6
    } else {
        0
    }
}

/// A ticket after payment: a winning one is marked paid with its award,
/// any other is left as it was.
pub open spec fn settle_game(g: ListNumRaffle, drawn: Seq<u64>, w: LottoWin) -> ListNumRaffle {
    let h = hits(g.numbers(), drawn);
    if wins(h) {
        ListNumRaffle { value_award: award_for(w, h), is_payment: true, ..g }
    } else {
        g
    }
}

/// A player's tickets after payment: those paid before are dropped, the
/// others settled.
pub open spec fn settle_games(gs: Seq<ListNumRaffle>, drawn: Seq<u64>, w: LottoWin) -> Seq<ListNumRaffle>
    decreases gs.len(),
{
    if gs.len() == 0 {
        Seq::empty()
    } else {
        let before = settle_games(gs.drop_last(), drawn, w);
        if gs.last().is_payment {
            before
        } else {
            before.push(settle_game(gs.last(), drawn, w))
        }
    }
}

/// The award that a ticket earns on payment: nothing once it is paid.
pub open spec fn game_award(g: ListNumRaffle, drawn: Seq<u64>, w: LottoWin) -> int {
    let h = hits(g.numbers(), drawn);
    if !g.is_payment && wins(h) {
        award_for(w, h) as int
    } else {
        0
    }
}

/// The sum of the awards that a player's tickets earn on payment.
pub open spec fn games_award(gs: Seq<ListNumRaffle>, drawn: Seq<u64>, w: LottoWin) -> int
    decreases gs.len(),
{
    if gs.len() == 0 {
        0
    } else {
        games_award(gs.drop_last(), drawn, w) + game_award(gs.last(), drawn, w)
    }
}

/// Whether some ticket not yet paid wins a prize.
pub open spec fn any_unpaid_win(gs: Seq<ListNumRaffle>, drawn: Seq<u64>) -> bool {
    exists|i: int| 0 <= i < gs.len() && !gs[i].is_payment && wins(hits(#[trigger] gs[i].numbers(), drawn))
}

/// The awards of a prefix of the tickets never exceed those of all of them.
pub proof fn lemma_games_award_prefix(gs: Seq<ListNumRaffle>, drawn: Seq<u64>, w: LottoWin, i: int)
    requires
        0 <= i <= gs.len(),
    ensures
        0 <= games_award(gs.take(i), drawn, w) <= games_award(gs, drawn, w),
    decreases gs.len() - i,
{
    lemma_games_award_nonneg(gs.take(i), drawn, w);
    if i < gs.len() {
        assert(gs.take(i + 1).drop_last() =~= gs.take(i));
        lemma_games_award_prefix(gs, drawn, w, i + 1);
    } else {
        assert(gs.take(i) =~= gs);
    }
}

/// Awards are never negative.
pub proof fn lemma_games_award_nonneg(gs: Seq<ListNumRaffle>, drawn: Seq<u64>, w: LottoWin)
    ensures
        games_award(gs, drawn, w) >= 0,
    decreases gs.len(),
{
    if gs.len() > 0 {
        lemma_games_award_nonneg(gs.drop_last(), drawn, w);
    }
}

/// A ticket without fault holds six distinct numbers from 1 to 60.
pub proof fn lemma_faultless_ticket(t: ListNumRaffle)
    requires
        ticket_fault(t) is None,
    ensures
        distinct_lotto_numbers(t.numbers()),
{
    let s = t.numbers();
    assert forall|i: int| 0 <= i < s.len() implies 1 <= #[trigger] s[i] <= 60 by {
        if s[i] == 0 {
            assert(s.contains(0));
        }
    }
}

/// Every ticket of a purchase that passes the checks holds six distinct
/// numbers from 1 to 60.
pub proof fn law_accepted_tickets_valid(s: Seq<ListNumRaffle>)
    requires
        first_fault(s) is None,
    ensures
        forall|i: int| 0 <= i < s.len() ==> distinct_lotto_numbers(#[trigger] s[i].numbers()),
    decreases s.len(),
{
    if s.len() > 0 {
        law_accepted_tickets_valid(s.drop_last());
        lemma_faultless_ticket(s.last());
        assert forall|i: int| 0 <= i < s.len() implies distinct_lotto_numbers(#[trigger] s[i].numbers()) by {
            if i < s.len() - 1 {
                assert(s[i] == s.drop_last()[i]);
            }
        }
    }
}

/// No ticket is paid twice: the tickets that a payment leaves earn
/// nothing on a further payment with the same draw and prizes.
pub proof fn law_payment_pays_once(games: Seq<ListNumRaffle>, drawn: Seq<u64>, w: LottoWin)
    ensures
        games_award(settle_games(games, drawn, w), drawn, w) == 0,
    decreases games.len(),
{
    if games.len() > 0 {
        law_payment_pays_once(games.drop_last(), drawn, w);
        let before = settle_games(games.drop_last(), drawn, w);
        if !games.last().is_payment {
            let g = settle_game(games.last(), drawn, w);
            assert(before.push(g).drop_last() =~= before);
            assert(g.numbers() =~= games.last().numbers());
        }
    }
}

/// Each ticket is paid the prize of its own class: a ticket not paid
/// before with exactly two, three, four, five or six of the drawn numbers
/// adds `value_award_2`, `value_award_3`, `value_award_4`, `value_award_5`
/// or `value_award_6` of the recorded prizes to the payment and is kept,
/// marked paid, with that award; a ticket not paid before with fewer hits
/// adds nothing and is kept as it was; a ticket paid before adds nothing
/// and is dropped.
pub proof fn law_ticket_paid_by_class(gs: Seq<ListNumRaffle>, g: ListNumRaffle, drawn: Seq<u64>, w: LottoWin)
    ensures
        !g.is_payment && hits(g.numbers(), drawn) == 2 ==> {
            &&& games_award(gs.push(g), drawn, w) == games_award(gs, drawn, w) + w.value_award_2
            &&& settle_games(gs.push(g), drawn, w) == settle_games(gs, drawn, w).push(
                ListNumRaffle { value_award: w.value_award_2, is_payment: true, ..g },
            )
        },
        !g.is_payment && hits(g.numbers(), drawn) == 3 ==> {
            &&& games_award(gs.push(g), drawn, w) == games_award(gs, drawn, w) + w.value_award_3
            &&& settle_games(gs.push(g), drawn, w) == settle_games(gs, drawn, w).push(
                ListNumRaffle { value_award: w.value_award_3, is_payment: true, ..g },
            )
        },
        !g.is_payment && hits(g.numbers(), drawn) == 4 ==> {
            &&& games_award(gs.push(g), drawn, w) == games_award(gs, drawn, w) + w.value_award_4
            &&& settle_games(gs.push(g), drawn, w) == settle_games(gs, drawn, w).push(
                ListNumRaffle { value_award: w.value_award_4, is_payment: true, ..g },
            )
        },
        !g.is_payment && hits(g.numbers(), drawn) == 5 ==> {
            &&& games_award(gs.push(g), drawn, w) == games_award(gs, drawn, w) + w.value_award_5
            &&& settle_games(gs.push(g), drawn, w) == settle_games(gs, drawn, w).push(
                ListNumRaffle { value_award: w.value_award_5, is_payment: true, ..g },
            )
        },
        !g.is_payment && hits(g.numbers(), drawn) == 6 ==> {
            &&& games_award(gs.push(g), drawn, w) == games_award(gs, drawn, w) + w.value_award_6
            &&& settle_games(gs.push(g), drawn, w) == settle_games(gs, drawn, w).push(
                ListNumRaffle { value_award: w.value_award_6, is_payment: true, ..g },
            )
        },
        !g.is_payment && hits(g.numbers(), drawn) < 2 ==> {
            &&& games_award(gs.push(g), drawn, w) == games_award(gs, drawn, w)
            &&& settle_games(gs.push(g), drawn, w) == settle_games(gs, drawn, w).push(g)
        },
        g.is_payment ==> {
            &&& games_award(gs.push(g), drawn, w) == games_award(gs, drawn, w)
            &&& settle_games(gs.push(g), drawn, w) == settle_games(gs, drawn, w)
        },
{
    assert(gs.push(g).drop_last() =~= gs);
    assert(gs.push(g).last() == g);
}

/// The award of a ticket with `h` hits under the prizes `w`.
pub fn award_of(w: &LottoWin, h: usize) -> (r: u128)
    ensures
        r == award_for(*w, h as nat),
{
    if h == 2 {
        w.value_award_2
    } else if h == 3 {
        w.value_award_3
    } else if h == 4 {
        w.value_award_4
    } else if h == 5 {
        w.value_award_5
    } else if h == 6 {
        w.value_award_6
    } else {
        0
    }
}

/// The sum of five amounts, when it fits in `u128`; the largest `u128` otherwise.
fn add_awards(a: u128, b: u128, c: u128, d: u128, e: u128) -> (r: u128)
    ensures
        a + b + c + d + e <= u128::MAX ==> r == a + b + c + d + e,
        a + b + c + d + e > u128::MAX ==> r == u128::MAX,
{
    let ab = a.saturating_add(b);
    let abc = ab.saturating_add(c);
    let abcd = abc.saturating_add(d);
    abcd.saturating_add(e)
}

/// Whether every ticket recorded for any player holds six distinct numbers
/// from 1 to 60.
pub open spec fn players_valid(players: Map<(AccountId, u64), Seq<ListNumRaffle>>) -> bool {
    forall|k: (AccountId, u64), i: int|
        players.contains_key(k) && 0 <= i < players[k].len() ==> distinct_lotto_numbers(#[trigger] players[k][i].numbers())
}

/// A purchase that passes the checks keeps every recorded ticket made of
/// six distinct numbers from 1 to 60.
pub proof fn law_purchase_keeps_tickets_valid(
    players: Map<(AccountId, u64), Seq<ListNumRaffle>>,
    key: (AccountId, u64),
    tickets: Seq<ListNumRaffle>,
)
    requires
        players_valid(players),
        first_fault(tickets) is None,
    ensures
        players_valid(players.insert(key, tickets + games_of(players, key))),
{
    law_accepted_tickets_valid(tickets);
    let after = players.insert(key, tickets + games_of(players, key));
    assert forall|k: (AccountId, u64), i: int|
        after.contains_key(k) && 0 <= i < after[k].len() implies distinct_lotto_numbers(#[trigger] after[k][i].numbers()) by {
        if k == key {
            let s = tickets + games_of(players, key);
            if i < tickets.len() {
                assert(s[i] == tickets[i]);
            } else {
                assert(s[i] == games_of(players, key)[i - tickets.len()]);
                assert(players.contains_key(key));
                assert(players[key][i - tickets.len()] == s[i]);
            }
        }
    }
}

/// The record of a draw: its six numbers, marked paid, with no award.
pub open spec fn drawn_record(v: Seq<u64>) -> ListNumRaffle {
    ListNumRaffle {
        num_1: v[0],
        num_2: v[1],
        num_3: v[2],
        num_4: v[3],
        num_5: v[4],
        num_6: v[5],
        is_payment: true,
        value_award: 0,
    }
}

} // verus!
