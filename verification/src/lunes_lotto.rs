//! The Lunes Lotto contract: a lottery that keeps its raffles, tickets and
//! winners as lists, draws by a linear congruential generator and shares
//! each raffle's pot among five prize classes.

use vstd::prelude::*;
use crate::lotto_lunes::distinct_lotto_numbers;
use crate::common::{AccountId, Transfer, OwnerError, is_owner, same_account, number_from_seed, spec_number_from_seed, hits, count_hits};

verus! {

/// Six numbers picked for one ticket.
#[derive(Clone, Copy, Debug, PartialEq, Eq, Structural)]
pub struct ListNumRaffle {
    pub num_1: u64,
    pub num_2: u64,
    pub num_3: u64,
    pub num_4: u64,
    pub num_5: u64,
    pub num_6: u64,
}

impl ListNumRaffle {
    /// The six numbers, in order.
    pub open spec fn numbers(self) -> Seq<u64> {
        seq![self.num_1, self.num_2, self.num_3, self.num_4, self.num_5, self.num_6]
    }
}

/// A raffle: its draw, date, ticket price, pot, and whether it is the open one.
pub struct LunesLotto {
    pub raffle_id: u64,
    pub num_raffle: Vec<u64>,
    pub date_raffle: u64,
    pub price: u128,
    pub total_accumulated: u128,
    pub status: bool,
}

/// A raffle, as plain values.
pub ghost struct RaffleView {
    pub raffle_id: u64,
    pub num_raffle: Seq<u64>,
    pub date_raffle: u64,
    pub price: u128,
    pub total_accumulated: u128,
    pub status: bool,
}

impl View for LunesLotto {
    type V = RaffleView;

    open spec fn view(&self) -> RaffleView {
        RaffleView {
            raffle_id: self.raffle_id,
            num_raffle: self.num_raffle@,
            date_raffle: self.date_raffle,
            price: self.price,
            total_accumulated: self.total_accumulated,
            status: self.status,
        }
    }
}

/// A ticket: its raffle, numbers, purchase time, award, owner, and whether
/// its award is still to be collected.
pub struct LunesTicket {
    pub raffle_id: u64,
    pub game_raffle: Vec<u64>,
    pub date_create: u64,
    pub value_award: u128,
    pub owner: AccountId,
    pub status: bool,
}

/// A ticket, as plain values.
pub ghost struct TicketView {
    pub raffle_id: u64,
    pub game_raffle: Seq<u64>,
    pub date_create: u64,
    pub value_award: u128,
    pub owner: AccountId,
    pub status: bool,
}

impl View for LunesTicket {
    type V = TicketView;

    open spec fn view(&self) -> TicketView {
        TicketView {
            raffle_id: self.raffle_id,
            game_raffle: self.game_raffle@,
            date_create: self.date_create,
            value_award: self.value_award,
            owner: self.owner,
            status: self.status,
        }
    }
}

/// A copy of a list of numbers.
pub fn copy_numbers(v: &Vec<u64>) -> (r: Vec<u64>)
    ensures
        r@ == v@,
{
    let mut r: Vec<u64> = Vec::new();
    let mut i: usize = 0;
    while i < v.len()
        invariant
            i <= v.len(),
            r@ == v@.take(i as int),
        decreases v.len() - i,
    {
        r.push(v[i]);
        i = i + 1;
        assert(r@ =~= v@.take(i as int));
    }
    assert(v@.take(v.len() as int) =~= v@);
    r
}

impl LunesLotto {
    /// A copy of the raffle.
    pub fn copy(&self) -> (r: Self)
        ensures
            r@ == self@,
    {
        LunesLotto {
            raffle_id: self.raffle_id,
            num_raffle: copy_numbers(&self.num_raffle),
            date_raffle: self.date_raffle,
            price: self.price,
            total_accumulated: self.total_accumulated,
            status: self.status,
        }
    }
}

impl LunesTicket {
    /// A copy of the ticket.
    pub fn copy(&self) -> (r: Self)
        ensures
            r@ == self@,
    {
        LunesTicket {
            raffle_id: self.raffle_id,
            game_raffle: copy_numbers(&self.game_raffle),
            date_create: self.date_create,
            value_award: self.value_award,
            owner: self.owner,
            status: self.status,
        }
    }
}

/// The views of a list of raffles.
pub open spec fn raffles_view(v: Seq<LunesLotto>) -> Seq<RaffleView> {
    v.map_values(|r: LunesLotto| r@)
}

/// The views of a list of tickets.
pub open spec fn tickets_view(v: Seq<LunesTicket>) -> Seq<TicketView> {
    v.map_values(|t: LunesTicket| t@)
}

/// The refusals of the contract.
#[derive(Clone, Copy, Debug, PartialEq, Eq, Structural)]
pub enum LunesError {
    BadMintValue,
    DrawNotStarted,
    WithdrawalFailed,
}

impl LunesError {
    /// The name of the variant.
    pub open spec fn name(self) -> Seq<char> {
        match self {
            LunesError::BadMintValue => "BadMintValue"@,
            LunesError::DrawNotStarted => "DrawNotStarted"@,
            LunesError::WithdrawalFailed => "WithdrawalFailed"@,
        }
    }

    /// The name of the variant, as the message that the contract reports.
    pub fn as_str(&self) -> (r: String)
        ensures
            r@ == self.name(),
    {
        match self {
            LunesError::BadMintValue => "BadMintValue".to_owned(),
            LunesError::DrawNotStarted => "DrawNotStarted".to_owned(),
            LunesError::WithdrawalFailed => "WithdrawalFailed".to_owned(),
        }
    }
}

/// The storage of the contract.
pub struct Data {
    pub next_id: u64,
    pub rafflies: Vec<LunesLotto>,
    pub tickets: Vec<LunesTicket>,
    pub winners: Vec<LunesTicket>,
}

/// Whether raffle `i` is the first open one.
pub open spec fn is_first_active(rs: Seq<RaffleView>, i: int) -> bool {
    &&& 0 <= i < rs.len()
    &&& rs[i].status
    &&& forall|j: int| 0 <= j < i ==> !rs[j].status
}

/// Whether some raffle is open.
pub open spec fn has_active(rs: Seq<RaffleView>) -> bool {
    exists|i: int| 0 <= i < rs.len() && rs[i].status
}

/// The first open raffle.
pub open spec fn first_active(rs: Seq<RaffleView>) -> int {
    choose|i: int| is_first_active(rs, i)
}

/// Whether raffle `i` is the first with id `id`.
pub open spec fn is_first_with_id(rs: Seq<RaffleView>, id: u64, i: int) -> bool {
    &&& 0 <= i < rs.len()
    &&& rs[i].raffle_id == id
    &&& forall|j: int| 0 <= j < i ==> rs[j].raffle_id != id
}

/// Whether ticket `i` is the first of `owner` still to be collected.
pub open spec fn is_first_open(ws: Seq<TicketView>, owner: AccountId, i: int) -> bool {
    &&& 0 <= i < ws.len()
    &&& ws[i].owner == owner
    &&& ws[i].status
    &&& forall|j: int| 0 <= j < i ==> !(ws[j].owner == owner && ws[j].status)
}

/// The sum of the awards that `owner` still has to collect.
pub open spec fn open_awards(ws: Seq<TicketView>, owner: AccountId) -> int
    decreases ws.len(),
{
    if ws.len() == 0 {
        0
    } else {
        open_awards(ws.drop_last(), owner) + if ws.last().owner == owner && ws.last().status {
            ws.last().value_award as int
        } else {
            0
        }
    }
}

/// With nothing to collect, `owner` has no award open.
pub proof fn lemma_open_awards_none(ws: Seq<TicketView>, owner: AccountId)
    requires
        forall|j: int| 0 <= j < ws.len() && ws[j].owner == owner ==> !ws[j].status,
    ensures
        open_awards(ws, owner) == 0,
    decreases ws.len(),
{
    if ws.len() > 0 {
        lemma_open_awards_none(ws.drop_last(), owner);
    }
}

/// Collecting one open award lowers what `owner` has open by that award:
/// no award is collected twice.
pub proof fn lemma_open_awards_close(ws: Seq<TicketView>, owner: AccountId, i: int)
    requires
        0 <= i < ws.len(),
        ws[i].owner == owner,
        ws[i].status,
    ensures
        open_awards(ws.update(i, TicketView { status: false, ..ws[i] }), owner) + ws[i].value_award
            == open_awards(ws, owner),
    decreases ws.len(),
{
    let closed = ws.update(i, TicketView { status: false, ..ws[i] });
    if i == ws.len() - 1 {
        assert(closed.drop_last() =~= ws.drop_last());
    } else {
        lemma_open_awards_close(ws.drop_last(), owner, i);
        assert(closed.drop_last() =~= ws.drop_last().update(i, TicketView { status: false, ..ws[i] }));
        assert(closed.last() == ws.last());
    }
}

/// The first open raffle exists and is unique.
pub proof fn lemma_first_active(rs: Seq<RaffleView>)
    requires
        has_active(rs),
    ensures
        is_first_active(rs, first_active(rs)),
        forall|i: int| is_first_active(rs, i) ==> i == first_active(rs),
    decreases rs.len(),
{
    let k = choose|i: int| 0 <= i < rs.len() && rs[i].status;
    lemma_exists_first_active(rs, k);
    let f = first_active(rs);
    assert forall|i: int| is_first_active(rs, i) implies i == f by {
        if i < f {
            assert(!rs[i].status);
        } else if f < i {
            assert(!rs[f].status);
        }
    }
}

proof fn lemma_exists_first_active(rs: Seq<RaffleView>, k: int)
    requires
        0 <= k < rs.len(),
        rs[k].status,
    ensures
        exists|i: int| is_first_active(rs, i),
    decreases k,
{
    if forall|j: int| 0 <= j < k ==> !rs[j].status {
        assert(is_first_active(rs, k));
    } else {
        let j = choose|j: int| 0 <= j < k && rs[j].status;
        lemma_exists_first_active(rs, j);
    }
}

/// A ticket bought in raffle `raffle_id` by `to` at `date_block`, with the numbers of `n`.
pub open spec fn new_ticket(raffle_id: u64, to: AccountId, n: ListNumRaffle, date_block: u64) -> TicketView {
    TicketView {
        raffle_id,
        game_raffle: n.numbers(),
        date_create: date_block,
        value_award: 0,
        owner: to,
        status: false,
    }
}

/// The part of `s` that a page of `size` entries starting at entry `start` shows.
pub open spec fn window<T>(s: Seq<T>, start: int, size: int) -> Seq<T> {
    let lo = if start < s.len() { start } else { s.len() as int };
    let hi = if start + size < s.len() { start + size } else { s.len() as int };
    s.subrange(lo, hi)
}

/// Adding an entry to a list adds it to a window exactly when it falls in it.
pub proof fn lemma_window_push<T>(s: Seq<T>, x: T, start: int, size: int)
    requires
        0 <= start,
        0 < size,
    ensures
        window(s.push(x), start, size) == if start <= s.len() < start + size {
            window(s, start, size).push(x)
        } else {
            window(s, start, size)
        },
{
    if start <= s.len() < start + size {
        assert(window(s.push(x), start, size) =~= window(s, start, size).push(x));
    } else {
        assert(window(s.push(x), start, size) =~= window(s, start, size));
    }
}

/// The tickets of `owner`, in order.
pub open spec fn tickets_of(ts: Seq<TicketView>, owner: AccountId) -> Seq<TicketView>
    decreases ts.len(),
{
    if ts.len() == 0 {
        Seq::empty()
    } else {
        let before = tickets_of(ts.drop_last(), owner);
        if ts.last().owner == owner {
            before.push(ts.last())
        } else {
            before
        }
    }
}

/// The tickets of raffle `raffle_id`, in order.
pub open spec fn tickets_in(ts: Seq<TicketView>, raffle_id: u64) -> Seq<TicketView>
    decreases ts.len(),
{
    if ts.len() == 0 {
        Seq::empty()
    } else {
        let before = tickets_in(ts.drop_last(), raffle_id);
        if ts.last().raffle_id == raffle_id {
            before.push(ts.last())
        } else {
            before
        }
    }
}

/// The raffles with id `raffle_id`, in order.
pub open spec fn raffles_with_id(rs: Seq<RaffleView>, raffle_id: u64) -> Seq<RaffleView>
    decreases rs.len(),
{
    if rs.len() == 0 {
        Seq::empty()
    } else {
        let before = raffles_with_id(rs.drop_last(), raffle_id);
        if rs.last().raffle_id == raffle_id {
            before.push(rs.last())
        } else {
            before
        }
    }
}

/// The Keccak-256 hash of the SCALE encoding of an account id, which is the
/// id's 32 bytes.
pub uninterp spec fn keccak256_of_account(account: Seq<u8>) -> Seq<u8>;

/// Hashes an account id with `ink::env::hash_encoded::<Keccak256, _>`, as
/// the contract does to seed its draw. Trusted: the 32 bytes returned are
/// the Keccak-256 hash of the SCALE-encoded `AccountId`, a function of the
/// account's bytes alone; what that function is, is left unstated.
#[verifier::external_body]
fn hash_account(account: &AccountId) -> (r: [u8; 32])
    ensures
        r@ == keccak256_of_account(account@),
{
    let id = ink::primitives::AccountId::from(*account);
    let mut output: [u8; 32] = [0u8; 32];
    ink::env::hash_encoded::<ink::env::hash::Keccak256, ink::primitives::AccountId>(&id, &mut output);
    output
}

/// The number that the first eight bytes of `b` spell, most significant first.
pub open spec fn be_u64(b: Seq<u8>) -> int {
    b[0] * 0x100000000000000 + b[1] * 0x1000000000000 + b[2] * 0x10000000000 + b[3] * 0x100000000
        + b[4] * 0x1000000 + b[5] * 0x10000 + b[6] * 0x100 + b[7]
}

/// The number that the first eight bytes of `b` spell, most significant first.
pub fn u64_from_be_prefix(b: &[u8; 32]) -> (r: u64)
    ensures
        r == be_u64(b@),
{
    proof {
        broadcast use vstd::array::group_array_axioms;
    }
    let b0 = b[0] as u64;
    let b1 = b[1] as u64;
    let b2 = b[2] as u64;
    let b3 = b[3] as u64;
    let b4 = b[4] as u64;
    let b5 = b[5] as u64;
    let b6 = b[6] as u64;
    let b7 = b[7] as u64;
    b0 * 0x100000000000000 + b1 * 0x1000000000000 + b2 * 0x10000000000 + b3 * 0x100000000
        + b4 * 0x1000000 + b5 * 0x10000 + b6 * 0x100 + b7
}

/// The seed of the draw: the hash of the last buyer's account, read as a
/// number, combined by exclusive or with the block time and number.
pub open spec fn spec_seed(last_owner: AccountId, now: u64, block: u32) -> u64 {
    ((be_u64(keccak256_of_account(last_owner@)) as u64) ^ now) ^ (block as u64)
}

/// The seeds of the linear generator: four draws, all of one value from 1
/// to 60, since the seed does not change within a call.
pub open spec fn same_roles(roles: Seq<u64>, x: u64) -> bool {
    roles == seq![x, x, x, x]
}

/// The tickets of raffle `raffle_id` that hold exactly `k` of the drawn
/// numbers, in order.
pub open spec fn class_of(ts: Seq<TicketView>, raffle_id: u64, drawn: Seq<u64>, k: nat) -> Seq<TicketView>
    decreases ts.len(),
{
    if ts.len() == 0 {
        Seq::empty()
    } else {
        let before = class_of(ts.drop_last(), raffle_id, drawn, k);
        if ts.last().raffle_id == raffle_id && hits(ts.last().game_raffle, drawn) == k {
            before.push(ts.last())
        } else {
            before
        }
    }
}

/// The tickets of a prize class, each given the award `per` and marked
/// as still to be collected.
pub open spec fn awarded(c: Seq<TicketView>, per: u128) -> Seq<TicketView> {
    c.map_values(|t: TicketView| TicketView { value_award: per, status: true, ..t })
}

/// What each ticket of a class of `n` gets of the class's share `a`: an
/// even split rounded down, nothing when the class is empty.
pub open spec fn share(a: int, n: nat) -> int {
    if n == 0 {
        0
    } else {
        a / n as int
    }
}

/// What of the class's share `a` rolls over to the next raffle: all of it
/// when the class is empty, nothing otherwise.
pub open spec fn carry(a: int, n: nat) -> int {
    if n == 0 {
        a
    } else {
        0
    }
}

/// The share of the pot for two hits: 2%.
pub open spec fn award_2(total: u128) -> int {
    total * 2 / 100
}

/// The share of the pot for three hits: 5%.
pub open spec fn award_3(total: u128) -> int {
    total * 5 / 100
}

/// The share of the pot for four hits: 10%.
pub open spec fn award_4(total: u128) -> int {
    total * 10 / 100
}

/// The share of the pot for five hits: 25%.
pub open spec fn award_5(total: u128) -> int {
    total * 25 / 100
}

/// The share of the pot for six hits: what the other classes leave.
pub open spec fn award_6(total: u128) -> int {
    total - (award_2(total) + award_3(total) + award_4(total) + award_5(total))
}

/// Whether raffle `j` is the first dated after `date`.
pub open spec fn is_first_later(rs: Seq<RaffleView>, date: u64, j: int) -> bool {
    &&& 0 <= j < rs.len()
    &&& rs[j].date_raffle > date
    &&& forall|i: int| 0 <= i < j ==> rs[i].date_raffle <= date
}

/// The first raffle dated after `date`.
pub open spec fn first_later(rs: Seq<RaffleView>, date: u64) -> int {
    choose|j: int| is_first_later(rs, date, j)
}

/// The time between a raffle and the one opened after it: six days, in milliseconds.
pub const RAFFLE_INTERVAL: u64 = 518400000;

/// The sum of the awards of a list of tickets.
pub open spec fn sum_awards(ts: Seq<TicketView>) -> int
    decreases ts.len(),
{
    if ts.len() == 0 {
        0
    } else {
        sum_awards(ts.drop_last()) + ts.last().value_award
    }
}

/// The awards of two lists add up.
pub proof fn lemma_sum_awards_concat(a: Seq<TicketView>, b: Seq<TicketView>)
    ensures
        sum_awards(a + b) == sum_awards(a) + sum_awards(b),
    decreases b.len(),
{
    if b.len() > 0 {
        lemma_sum_awards_concat(a, b.drop_last());
        assert((a + b).drop_last() =~= a + b.drop_last());
    } else {
        assert(a + b =~= a);
    }
}

/// A prize class pays its award once per ticket.
pub proof fn lemma_sum_awarded(c: Seq<TicketView>, per: u128)
    ensures
        sum_awards(awarded(c, per)) == c.len() * per,
    decreases c.len(),
{
    if c.len() > 0 {
        lemma_sum_awarded(c.drop_last(), per);
        let a = awarded(c, per);
        assert(a.drop_last() =~= awarded(c.drop_last(), per));
        assert(a.len() == c.len());
        assert(a.last().value_award == per);
        assert(sum_awards(a) == sum_awards(a.drop_last()) + per);
        let n = c.len() as int;
        assert(c.drop_last().len() == n - 1);
        assert((n - 1) * per + per == n * per) by (nonlinear_arith);
    } else {
        assert(awarded(c, per).len() == 0);
        let n = c.len() as int;
        assert(n * per == 0) by (nonlinear_arith)
            requires
                n == 0,
        ;
    }
}

/// An even split of `a` among `n` never hands out more than `a`.
pub proof fn lemma_split_within(a: int, n: int)
    requires
        a >= 0,
        n >= 1,
    ensures
        0 <= n * (a / n) <= a,
{
    vstd::arithmetic::div_mod::lemma_fundamental_div_mod(a, n);
    vstd::arithmetic::div_mod::lemma_mod_pos_bound(a, n);
    vstd::arithmetic::div_mod::lemma_div_pos_is_pos(a, n);
    vstd::arithmetic::mul::lemma_mul_nonnegative(n, a / n);
}

/// What a class pays out and rolls over never exceeds its share.
pub proof fn lemma_class_within(a: int, n: nat)
    requires
        a >= 0,
    ensures
        0 <= n * share(a, n),
        0 <= carry(a, n),
        n * share(a, n) + carry(a, n) <= a,
{
    if n > 0 {
        lemma_split_within(a, n as int);
    } else {
        assert(n * share(a, n) == 0) by (nonlinear_arith)
            requires
                n == 0,
        ;
    }
}

/// The five shares of a pot are never negative and add up to the pot, and
/// what the classes pay out (each share split evenly among its tickets,
/// rounding down) together with the shares of the empty classes, which roll
/// over, never exceeds the pot.
pub proof fn law_prizes_within_pot(total: u128, n2: nat, n3: nat, n4: nat, n5: nat, n6: nat)
    ensures
        award_2(total) >= 0,
        award_3(total) >= 0,
        award_4(total) >= 0,
        award_5(total) >= 0,
        award_6(total) >= 0,
        award_2(total) + award_3(total) + award_4(total) + award_5(total) + award_6(total) == total,
        n2 * share(award_2(total), n2) + carry(award_2(total), n2)
            + n3 * share(award_3(total), n3) + carry(award_3(total), n3)
            + n4 * share(award_4(total), n4) + carry(award_4(total), n4)
            + n5 * share(award_5(total), n5) + carry(award_5(total), n5)
            + n6 * share(award_6(total), n6) + carry(award_6(total), n6) <= total,
{
    let t = total as int;
    assert(award_2(total) + award_3(total) + award_4(total) + award_5(total) <= t) by (nonlinear_arith)
        requires
            t >= 0,
            award_2(total) == t * 2 / 100,
            award_3(total) == t * 5 / 100,
            award_4(total) == t * 10 / 100,
            award_5(total) == t * 25 / 100,
    ;
    assert(award_2(total) >= 0 && award_3(total) >= 0 && award_4(total) >= 0 && award_5(total) >= 0) by (nonlinear_arith)
        requires
            t >= 0,
            award_2(total) == t * 2 / 100,
            award_3(total) == t * 5 / 100,
            award_4(total) == t * 10 / 100,
            award_5(total) == t * 25 / 100,
    ;
    lemma_class_within(award_2(total), n2);
    lemma_class_within(award_3(total), n3);
    lemma_class_within(award_4(total), n4);
    lemma_class_within(award_5(total), n5);
    lemma_class_within(award_6(total), n6);
}

/// A page shows at most `size` entries.
pub proof fn law_page_size<T>(s: Seq<T>, start: int, size: int)
    requires
        0 <= start,
        0 <= size,
    ensures
        window(s, start, size).len() <= size,
{
}

/// A player's list of tickets holds only that player's tickets, and all of them.
pub proof fn law_tickets_of_owner(ts: Seq<TicketView>, owner: AccountId)
    ensures
        forall|i: int| 0 <= i < tickets_of(ts, owner).len() ==> #[trigger] tickets_of(ts, owner)[i].owner == owner,
        tickets_of(ts, owner).len() == ts.filter(|t: TicketView| t.owner == owner).len(),
    decreases ts.len(),
{
    reveal_with_fuel(Seq::<_>::filter, 1);
    if ts.len() > 0 {
        law_tickets_of_owner(ts.drop_last(), owner);
        let before = tickets_of(ts.drop_last(), owner);
        if ts.last().owner == owner {
            assert forall|i: int| 0 <= i < tickets_of(ts, owner).len() implies #[trigger] tickets_of(ts, owner)[i].owner == owner by {
                if i < before.len() {
                    assert(tickets_of(ts, owner)[i] == before[i]);
                }
            }
        }
    }
}

/// A prize class of a draw holds exactly the tickets of that raffle with
/// that many hits, in the order they were bought: only tickets of the
/// raffle drawn, each with `k` of the drawn numbers, and every such ticket.
pub proof fn law_class_members(ts: Seq<TicketView>, raffle_id: u64, drawn: Seq<u64>, k: nat)
    ensures
        class_of(ts, raffle_id, drawn, k) == ts.filter(
            |t: TicketView| t.raffle_id == raffle_id && hits(t.game_raffle, drawn) == k,
        ),
        forall|i: int|
            0 <= i < class_of(ts, raffle_id, drawn, k).len() ==> (#[trigger] class_of(ts, raffle_id, drawn, k)[i]).raffle_id
                == raffle_id && hits(class_of(ts, raffle_id, drawn, k)[i].game_raffle, drawn) == k,
        forall|j: int|
            0 <= j < ts.len() && ts[j].raffle_id == raffle_id && hits(ts[j].game_raffle, drawn) == k
                ==> class_of(ts, raffle_id, drawn, k).contains(#[trigger] ts[j]),
    decreases ts.len(),
{
    reveal_with_fuel(Seq::<_>::filter, 1);
    if ts.len() > 0 {
        law_class_members(ts.drop_last(), raffle_id, drawn, k);
    }
    let c = class_of(ts, raffle_id, drawn, k);
    let f = ts.filter(|t: TicketView| t.raffle_id == raffle_id && hits(t.game_raffle, drawn) == k);
    ts.filter_lemma(|t: TicketView| t.raffle_id == raffle_id && hits(t.game_raffle, drawn) == k);
    assert forall|i: int| 0 <= i < c.len() implies (#[trigger] c[i]).raffle_id == raffle_id && hits(c[i].game_raffle, drawn) == k by {
        assert(c[i] == f[i]);
    }
    assert forall|j: int| 0 <= j < ts.len() && ts[j].raffle_id == raffle_id && hits(ts[j].game_raffle, drawn) == k
        implies c.contains(#[trigger] ts[j]) by {
        assert(f.contains(ts[j]));
    }
}

/// The winners listed for a raffle are exactly its winning tickets, in
/// order, whether or not their prizes have been collected.
pub proof fn law_tickets_in_raffle(ts: Seq<TicketView>, raffle_id: u64)
    ensures
        tickets_in(ts, raffle_id) == ts.filter(|t: TicketView| t.raffle_id == raffle_id),
        forall|i: int| 0 <= i < tickets_in(ts, raffle_id).len() ==> (#[trigger] tickets_in(ts, raffle_id)[i]).raffle_id == raffle_id,
        forall|j: int| 0 <= j < ts.len() && ts[j].raffle_id == raffle_id ==> tickets_in(ts, raffle_id).contains(#[trigger] ts[j]),
    decreases ts.len(),
{
    reveal_with_fuel(Seq::<_>::filter, 1);
    if ts.len() > 0 {
        law_tickets_in_raffle(ts.drop_last(), raffle_id);
    }
    let c = tickets_in(ts, raffle_id);
    let f = ts.filter(|t: TicketView| t.raffle_id == raffle_id);
    ts.filter_lemma(|t: TicketView| t.raffle_id == raffle_id);
    assert forall|i: int| 0 <= i < c.len() implies (#[trigger] c[i]).raffle_id == raffle_id by {
        assert(c[i] == f[i]);
    }
    assert forall|j: int| 0 <= j < ts.len() && ts[j].raffle_id == raffle_id implies c.contains(#[trigger] ts[j]) by {
        assert(f.contains(ts[j]));
    }
}

/// The raffles listed under an id are exactly the raffles with that id, in order.
pub proof fn law_raffles_with_id(rs: Seq<RaffleView>, raffle_id: u64)
    ensures
        raffles_with_id(rs, raffle_id) == rs.filter(|r: RaffleView| r.raffle_id == raffle_id),
        forall|i: int|
            0 <= i < raffles_with_id(rs, raffle_id).len() ==> (#[trigger] raffles_with_id(rs, raffle_id)[i]).raffle_id == raffle_id,
        forall|j: int| 0 <= j < rs.len() && rs[j].raffle_id == raffle_id ==> raffles_with_id(rs, raffle_id).contains(#[trigger] rs[j]),
        forall|i: int| 0 <= i < raffles_with_id(rs, raffle_id).len() ==> rs.contains(#[trigger] raffles_with_id(rs, raffle_id)[i]),
    decreases rs.len(),
{
    reveal_with_fuel(Seq::<_>::filter, 1);
    if rs.len() > 0 {
        law_raffles_with_id(rs.drop_last(), raffle_id);
    }
    let c = raffles_with_id(rs, raffle_id);
    let f = rs.filter(|r: RaffleView| r.raffle_id == raffle_id);
    rs.filter_lemma(|r: RaffleView| r.raffle_id == raffle_id);
    assert forall|i: int| 0 <= i < c.len() implies (#[trigger] c[i]).raffle_id == raffle_id by {
        assert(c[i] == f[i]);
    }
    assert forall|j: int| 0 <= j < rs.len() && rs[j].raffle_id == raffle_id implies c.contains(#[trigger] rs[j]) by {
        assert(f.contains(rs[j]));
    }
    assert forall|i: int| 0 <= i < c.len() implies rs.contains(#[trigger] c[i]) by {
        if rs.len() > 0 {
            let before = raffles_with_id(rs.drop_last(), raffle_id);
            if i < before.len() {
                assert(c[i] == before[i]);
                let m = choose|m: int| 0 <= m < rs.drop_last().len() && rs.drop_last()[m] == before[i];
                assert(rs[m] == c[i]);
            } else {
                assert(c[i] == rs[rs.len() - 1]);
            }
        }
    }
}

/// Every entry of a page is an entry of the list it pages through.
pub proof fn law_page_entries<T>(s: Seq<T>, start: int, size: int)
    requires
        0 <= start,
        0 <= size,
    ensures
        forall|i: int| 0 <= i < window(s, start, size).len() ==> s.contains(#[trigger] window(s, start, size)[i]),
{
    let w = window(s, start, size);
    let lo = if start < s.len() { start } else { s.len() as int };
    assert forall|i: int| 0 <= i < w.len() implies s.contains(#[trigger] w[i]) by {
        assert(w[i] == s[lo + i]);
    }
}

/// Whether `t` is a prize of the draw `drawn` of raffle `raffle_id`: a
/// ticket of that raffle holding two to six of the drawn numbers, with its
/// prize still to be collected.
pub open spec fn is_draw_prize(t: TicketView, raffle_id: u64, drawn: Seq<u64>) -> bool {
    &&& t.raffle_id == raffle_id
    &&& 2 <= hits(t.game_raffle, drawn) <= 6
    &&& t.status
}

/// The prizes of one class: each a ticket of the raffle with `k` hits, and
/// one for every such ticket.
proof fn lemma_awarded_class(ts: Seq<TicketView>, raffle_id: u64, drawn: Seq<u64>, k: nat, per: u128)
    requires
        2 <= k <= 6,
    ensures
        forall|i: int| 0 <= i < awarded(class_of(ts, raffle_id, drawn, k), per).len()
            ==> is_draw_prize(#[trigger] awarded(class_of(ts, raffle_id, drawn, k), per)[i], raffle_id, drawn),
        forall|j: int| 0 <= j < ts.len() && ts[j].raffle_id == raffle_id && hits(ts[j].game_raffle, drawn) == k
            ==> exists|m: int| 0 <= m < awarded(class_of(ts, raffle_id, drawn, k), per).len()
                && #[trigger] awarded(class_of(ts, raffle_id, drawn, k), per)[m]
                == (TicketView { value_award: per, status: true, ..ts[j] }),
{
    let c = class_of(ts, raffle_id, drawn, k);
    let a = awarded(c, per);
    law_class_members(ts, raffle_id, drawn, k);
    assert forall|i: int| 0 <= i < a.len() implies is_draw_prize(#[trigger] a[i], raffle_id, drawn) by {
        assert(a[i] == TicketView { value_award: per, status: true, ..c[i] });
        assert(c[i].raffle_id == raffle_id && hits(c[i].game_raffle, drawn) == k);
    }
    assert forall|j: int| 0 <= j < ts.len() && ts[j].raffle_id == raffle_id && hits(ts[j].game_raffle, drawn) == k
        implies exists|m: int| 0 <= m < a.len() && #[trigger] a[m] == (TicketView { value_award: per, status: true, ..ts[j] }) by {
        assert(c.contains(ts[j]));
        let m = choose|m: int| 0 <= m < c.len() && c[m] == ts[j];
        assert(a[m] == TicketView { value_award: per, status: true, ..c[m] });
    }
}

/// Whether raffle ids are distinct and each below `next_id`.
pub open spec fn ids_fresh(rs: Seq<RaffleView>, next_id: u64) -> bool {
    &&& forall|i: int| 0 <= i < rs.len() ==> #[trigger] rs[i].raffle_id < next_id
    &&& forall|i: int, j: int| 0 <= i < j < rs.len() ==> rs[i].raffle_id != rs[j].raffle_id
}

/// Whether exactly one raffle is open.
pub open spec fn exactly_one_open(rs: Seq<RaffleView>) -> bool {
    exists|k: int| 0 <= k < rs.len() && rs[k].status && forall|m: int| 0 <= m < rs.len() && #[trigger] rs[m].status ==> m == k
}

/// What a purchase of value `v` leaves after the 17% tax, rounded down.
pub open spec fn net_of_tax(v: u128) -> int {
    v - v * 17 / 100
}

/// Whether every ticket holds six distinct numbers from 1 to 60.
pub open spec fn all_tickets_valid(tickets: Seq<ListNumRaffle>) -> bool {
    forall|i: int| 0 <= i < tickets.len() ==> distinct_lotto_numbers(#[trigger] tickets[i].numbers())
}

/// Whether a ticket holds six distinct numbers from 1 to 60.
pub fn ticket_valid(t: &ListNumRaffle) -> (r: bool)
    ensures
        r == distinct_lotto_numbers(t.numbers()),
{
    let mut v: Vec<u64> = Vec::new();
    v.push(t.num_1);
    v.push(t.num_2);
    v.push(t.num_3);
    v.push(t.num_4);
    v.push(t.num_5);
    v.push(t.num_6);
    assert(v@ =~= t.numbers());
    let mut i: usize = 0;
    while i < 6
        invariant
            v@ == t.numbers(),
            i <= 6,
            forall|a: int| 0 <= a < i ==> 1 <= #[trigger] v@[a] <= 60,
            forall|a: int, b: int| 0 <= a < i && a < b < 6 ==> v@[a] != v@[b],
        decreases 6 - i,
    {
        if v[i] == 0 || v[i] > 60 {
            return false;
        }
        let mut j: usize = i + 1;
        while j < 6
            invariant
                v@ == t.numbers(),
                i < 6,
                i < j <= 6,
                forall|b: int| i < b < j ==> v@[i as int] != v@[b],
            decreases 6 - j,
        {
            if v[i] == v[j] {
                return false;
            }
            j = j + 1;
        }
        i = i + 1;
    }
    true
}

/// The numbers 1 to 60, in order.
pub open spec fn full_pool() -> Seq<u64> {
    Seq::new(60, |i: int| (i + 1) as u64)
}

/// One step of the linear generator: `multiplier * seed + increment`, wrapping in `u64`.
pub open spec fn lcg_step(multiplier: u64, increment: u64, seed: u64) -> u64 {
    vstd::wrapping::u64_specs::wrapping_add(vstd::wrapping::u64_specs::wrapping_mul(multiplier, seed), increment)
}

/// `k` numbers drawn from `pool`: each step advances the seed and takes
/// (and removes) the number at the position the seed gives modulo the
/// numbers left.
pub open spec fn pool_draw(multiplier: u64, increment: u64, seed: u64, pool: Seq<u64>, k: nat) -> Seq<u64>
    decreases k,
{
    if k == 0 || pool.len() == 0 {
        Seq::empty()
    } else {
        let next = lcg_step(multiplier, increment, seed);
        let i = (next as int) % (pool.len() as int);
        seq![pool[i]] + pool_draw(multiplier, increment, next, pool.remove(i), (k - 1) as nat)
    }
}

/// The six numbers that the linear generator draws when its seed,
/// multiplier and increment are all `x`.
pub open spec fn linear_draw(x: u64) -> Seq<u64> {
    pool_draw(x, x, x, full_pool(), 6)
}

/// The numbers 1 to 60 are distinct lottery numbers.
pub proof fn lemma_full_pool()
    ensures
        full_pool().len() == 60,
        distinct_lotto_numbers(full_pool()),
{
}

/// Drawing from distinct lottery numbers gives distinct lottery numbers,
/// as many as asked, each taken from the pool.
pub proof fn lemma_pool_draw(multiplier: u64, increment: u64, seed: u64, pool: Seq<u64>, k: nat)
    requires
        k <= pool.len(),
        distinct_lotto_numbers(pool),
    ensures
        pool_draw(multiplier, increment, seed, pool, k).len() == k,
        distinct_lotto_numbers(pool_draw(multiplier, increment, seed, pool, k)),
        forall|j: int| 0 <= j < k ==> pool.contains(#[trigger] pool_draw(multiplier, increment, seed, pool, k)[j]),
    decreases k,
{
    if k > 0 {
        let next = lcg_step(multiplier, increment, seed);
        let i = (next as int) % (pool.len() as int);
        let rest_pool = pool.remove(i);
        assert forall|a: int, b: int| 0 <= a < b < rest_pool.len() implies rest_pool[a] != rest_pool[b] by {
            let a2 = if a < i { a } else { a + 1 };
            let b2 = if b < i { b } else { b + 1 };
            assert(rest_pool[a] == pool[a2] && rest_pool[b] == pool[b2]);
        }
        assert forall|a: int| 0 <= a < rest_pool.len() implies 1 <= #[trigger] rest_pool[a] <= 60 by {
            let a2 = if a < i { a } else { a + 1 };
            assert(rest_pool[a] == pool[a2]);
        }
        lemma_pool_draw(multiplier, increment, next, rest_pool, (k - 1) as nat);
        let rest = pool_draw(multiplier, increment, next, rest_pool, (k - 1) as nat);
        let d = pool_draw(multiplier, increment, seed, pool, k);
        assert(d == seq![pool[i]] + rest);
        assert forall|j: int| 0 <= j < k implies pool.contains(#[trigger] d[j]) by {
            if j == 0 {
                assert(pool[i] == d[0]);
            } else {
                assert(d[j] == rest[j - 1]);
                assert(rest_pool.contains(rest[j - 1]));
                let m = choose|m: int| 0 <= m < rest_pool.len() && rest_pool[m] == rest[j - 1];
                let m2 = if m < i { m } else { m + 1 };
                assert(pool[m2] == d[j]);
            }
        }
        assert forall|a: int, b: int| 0 <= a < b < d.len() implies d[a] != d[b] by {
            if a == 0 {
                assert(d[b] == rest[b - 1]);
                assert(rest_pool.contains(rest[b - 1]));
                let m = choose|m: int| 0 <= m < rest_pool.len() && rest_pool[m] == rest[b - 1];
                let m2 = if m < i { m } else { m + 1 };
                assert(pool[m2] == d[b]);
                assert(m2 != i);
            } else {
                assert(d[a] == rest[a - 1] && d[b] == rest[b - 1]);
            }
        }
        assert forall|a: int| 0 <= a < d.len() implies 1 <= #[trigger] d[a] <= 60 by {
            assert(pool.contains(d[a]));
        }
    }
}

/// The contract: its storage and the owner that `only_owner` checks against.
pub struct LunesLottoContract {
    pub data: Data,
    pub owner: Option<AccountId>,
}

impl LunesLottoContract {
    /// The raffles, as plain values.
    pub open spec fn raffles(&self) -> Seq<RaffleView> {
        raffles_view(self.data.rafflies@)
    }

    /// The tickets, as plain values.
    pub open spec fn tickets(&self) -> Seq<TicketView> {
        tickets_view(self.data.tickets@)
    }

    /// The winning tickets, as plain values.
    pub open spec fn winners(&self) -> Seq<TicketView> {
        tickets_view(self.data.winners@)
    }

    /// Whether the storage and owner are as in `other`.
    pub open spec fn same_state(&self, other: LunesLottoContract) -> bool {
        &&& self.data.next_id == other.data.next_id
        &&& self.raffles() == other.raffles()
        &&& self.tickets() == other.tickets()
        &&& self.winners() == other.winners()
        &&& self.owner == other.owner
    }

    /// The position of the first open raffle.
    fn find_active(&self) -> (r: usize)
        requires
            has_active(self.raffles()),
        ensures
            r == first_active(self.raffles()),
            is_first_active(self.raffles(), r as int),
    {
        proof {
            lemma_first_active(self.raffles());
        }
        let mut i: usize = 0;
        while i < self.data.rafflies.len()
            invariant
                i <= self.data.rafflies@.len(),
                has_active(self.raffles()),
                is_first_active(self.raffles(), first_active(self.raffles())),
                forall|j: int| 0 <= j < i ==> !self.raffles()[j].status,
            decreases self.data.rafflies.len() - i,
        {
            if self.data.rafflies[i].status {
                assert(self.raffles()[i as int].status);
                assert(is_first_active(self.raffles(), i as int));
                proof {
                    lemma_first_active(self.raffles());
                }
                return i;
            }
            i = i + 1;
        }
        let ghost k = first_active(self.raffles());
        assert(self.raffles()[k].status);
        0
    }

    /// What `check_amount` answers: the open raffle's id when the value
    /// sent is the price of the tickets and every ticket holds six distinct
    /// numbers from 1 to 60; `BadMintValue` otherwise.
    pub open spec fn spec_check_amount(&self, transferred_value: u128, tickets: Seq<ListNumRaffle>) -> Result<u64, LunesError> {
        let open = self.raffles()[first_active(self.raffles())];
        if open.price * tickets.len() == transferred_value && all_tickets_valid(tickets) {
            Ok(open.raffle_id)
        } else {
            Err(LunesError::BadMintValue)
        }
    }

    /// A purchase is priced by the open raffle, the first with status true,
    /// whatever the prices of the other raffles: it is accepted, for that
    /// raffle's id, exactly when the value sent is that raffle's price times
    /// the number of tickets and every ticket is valid; it is refused with
    /// `BadMintValue` otherwise.
    pub proof fn law_purchase_priced_by_open_raffle(&self, transferred_value: u128, tickets: Seq<ListNumRaffle>, i: int)
        requires
            is_first_active(self.raffles(), i),
        ensures
            self.spec_check_amount(transferred_value, tickets) is Ok <==> self.raffles()[i].price * tickets.len()
                == transferred_value && all_tickets_valid(tickets),
            self.spec_check_amount(transferred_value, tickets) is Ok ==> self.spec_check_amount(transferred_value, tickets)
                == Ok::<u64, LunesError>(self.raffles()[i].raffle_id),
            self.spec_check_amount(transferred_value, tickets) is Err ==> self.spec_check_amount(transferred_value, tickets)
                == Err::<u64, LunesError>(LunesError::BadMintValue),
    {
        assert(has_active(self.raffles()));
        lemma_first_active(self.raffles());
    }

    /// Checks a purchase against the open raffle: the value sent must be
    /// the price of the tickets, and every ticket must hold six distinct
    /// numbers from 1 to 60.
    pub fn check_amount(&self, transferred_value: u128, num_raffle: &Vec<ListNumRaffle>) -> (r: Result<u64, LunesError>)
        requires
            has_active(self.raffles()),
            self.raffles()[first_active(self.raffles())].price * num_raffle@.len() <= u128::MAX,
        ensures
            r == self.spec_check_amount(transferred_value, num_raffle@),
            forall|i: int| #[trigger] is_first_active(self.raffles(), i) ==> {
                &&& (r is Ok <==> self.raffles()[i].price * num_raffle@.len() == transferred_value
                    && all_tickets_valid(num_raffle@))
                &&& r is Ok ==> r == Ok::<u64, LunesError>(self.raffles()[i].raffle_id)
                &&& r is Err ==> r == Err::<u64, LunesError>(LunesError::BadMintValue)
            },
    {
        proof {
            lemma_first_active(self.raffles());
        }
        let index = self.find_active();
        assert(self.raffles()[index as int] == self.data.rafflies@[index as int]@);
        let n = num_raffle.len() as u128;
        let price = self.data.rafflies[index].price;
        let price_total = price * n;
        if price_total == transferred_value {
            let mut t: usize = 0;
            while t < num_raffle.len()
                invariant
                    t <= num_raffle@.len(),
                    forall|i: int| 0 <= i < t ==> distinct_lotto_numbers(#[trigger] num_raffle@[i].numbers()),
                decreases num_raffle.len() - t,
            {
                if !ticket_valid(&num_raffle[t]) {
                    return Err(LunesError::BadMintValue);
                }
                t = t + 1;
            }
            return Ok(self.data.rafflies[index].raffle_id);
        }
        Err(LunesError::BadMintValue)
    }

    /// Records one ticket per entry of `num_raffle`, owned by `to`, in raffle `raffle_id`.
    pub fn create_ticket(&mut self, raffle_id: u64, to: AccountId, num_raffle: Vec<ListNumRaffle>, date_block: u64) -> (r: Result<(), LunesError>)
        ensures
            r is Ok,
            final(self).tickets() == old(self).tickets() + num_raffle@.map_values(
                |n: ListNumRaffle| new_ticket(raffle_id, to, n, date_block),
            ),
            final(self).data.next_id == old(self).data.next_id,
            final(self).raffles() == old(self).raffles(),
            final(self).winners() == old(self).winners(),
            final(self).owner == old(self).owner,
    {
        let ghost start = self.tickets();
        let mut i: usize = 0;
        while i < num_raffle.len()
            invariant
                i <= num_raffle@.len(),
                self.tickets() == start + num_raffle@.take(i as int).map_values(
                    |n: ListNumRaffle| new_ticket(raffle_id, to, n, date_block),
                ),
                self.data.next_id == old(self).data.next_id,
                self.raffles() == old(self).raffles(),
                self.winners() == old(self).winners(),
                self.owner == old(self).owner,
            decreases num_raffle.len() - i,
        {
            let vet_num = num_raffle[i];
            let mut game: Vec<u64> = Vec::new();
            game.push(vet_num.num_1);
            game.push(vet_num.num_2);
            game.push(vet_num.num_3);
            game.push(vet_num.num_4);
            game.push(vet_num.num_5);
            game.push(vet_num.num_6);
            assert(game@ =~= vet_num.numbers());
            let ticket = LunesTicket {
                owner: to,
                game_raffle: game,
                date_create: date_block,
                raffle_id,
                status: false,
                value_award: 0,
            };
            assert(ticket@ == new_ticket(raffle_id, to, vet_num, date_block));
            let ghost before = self.data.tickets@;
            let ghost done = num_raffle@.take(i as int).map_values(
                |n: ListNumRaffle| new_ticket(raffle_id, to, n, date_block),
            );
            self.data.tickets.push(ticket);
            assert(tickets_view(self.data.tickets@) =~= tickets_view(before).push(ticket@));
            assert(num_raffle@.take(i + 1).map_values(
                |n: ListNumRaffle| new_ticket(raffle_id, to, n, date_block),
            ) =~= done.push(new_ticket(raffle_id, to, vet_num, date_block)));
            i = i + 1;
            assert(self.tickets() =~= start + num_raffle@.take(i as int).map_values(
                |n: ListNumRaffle| new_ticket(raffle_id, to, n, date_block),
            ));
        }
        assert(num_raffle@.take(num_raffle@.len() as int) =~= num_raffle@);
        Ok(())
    }

    /// Buys tickets in the open raffle for `caller`, who sent
    /// `transferred_value`: 17% of it (rounded down) is kept as a tax, the
    /// rest joins the pot of the first raffle with the open raffle's id and
    /// is sent on to the owner; one ticket per pick is recorded.
    pub fn play_lunes(&mut self, caller: AccountId, now: u64, transferred_value: u128, num_rifle: Vec<ListNumRaffle>) -> (r: Result<Transfer, LunesError>)
        requires
            has_active(old(self).raffles()),
            old(self).raffles()[first_active(old(self).raffles())].price * num_rifle@.len() <= u128::MAX,
            old(self).spec_check_amount(transferred_value, num_rifle@) is Ok ==> {
                &&& old(self).owner is Some
                &&& transferred_value * 17 <= u128::MAX
                &&& old(self).raffles()[old(self).pot_index()].total_accumulated + net_of_tax(transferred_value) <= u128::MAX
            },
        ensures
            match r {
                Ok(t) => {
                    let open = old(self).raffles()[first_active(old(self).raffles())];
                    let pi = old(self).pot_index();
                    &&& old(self).spec_check_amount(transferred_value, num_rifle@) == Ok::<u64, LunesError>(open.raffle_id)
                    &&& t == Transfer { to: old(self).owner.unwrap(), amount: net_of_tax(transferred_value) as u128 }
                    &&& final(self).raffles() == old(self).raffles().update(
                        pi,
                        RaffleView {
                            total_accumulated: (old(self).raffles()[pi].total_accumulated + net_of_tax(transferred_value)) as u128,
                            ..old(self).raffles()[pi]
                        },
                    )
                    &&& final(self).tickets() == old(self).tickets() + num_rifle@.map_values(
                        |n: ListNumRaffle| new_ticket(open.raffle_id, caller, n, now),
                    )
                    &&& final(self).winners() == old(self).winners()
                    &&& final(self).data.next_id == old(self).data.next_id
                    &&& final(self).owner == old(self).owner
                },
                Err(e) => {
                    &&& old(self).spec_check_amount(transferred_value, num_rifle@) == Err::<u64, LunesError>(e)
                    &&& *final(self) == *old(self)
                },
            },
    {
        let raffle_id = match self.check_amount(transferred_value, &num_rifle) {
            Ok(id) => id,
            Err(e) => return Err(e),
        };
        proof {
            lemma_first_active(self.raffles());
            let fa = first_active(self.raffles());
            assert(self.raffles()[fa].raffle_id == raffle_id);
        }
        let mut value_pay = transferred_value;
        let tax_lunes = value_pay * 17 / 100;
        value_pay = value_pay - tax_lunes;
        let index = self.find_with_id(raffle_id);
        proof {
            self.lemma_pot_index(index as int);
        }
        let ghost before = self.raffles();
        let mut raffle = self.data.rafflies[index].copy();
        raffle.total_accumulated = raffle.total_accumulated + value_pay;
        self.data.rafflies.set(index, raffle);
        assert(self.raffles() =~= before.update(
            index as int,
            RaffleView { total_accumulated: (before[index as int].total_accumulated + net_of_tax(transferred_value)) as u128, ..before[index as int] },
        ));
        let owner = self.owner.unwrap();
        let _ = self.create_ticket(raffle_id, caller, num_rifle, now);
        Ok(Transfer { to: owner, amount: value_pay })
    }

    /// The raffle whose pot a purchase raises: the first with the open raffle's id.
    pub open spec fn pot_index(&self) -> int {
        let id = self.raffles()[first_active(self.raffles())].raffle_id;
        choose|i: int| is_first_with_id(self.raffles(), id, i)
    }

    /// The first raffle with the open raffle's id is unique.
    proof fn lemma_pot_index(&self, i: int)
        requires
            has_active(self.raffles()),
            is_first_with_id(self.raffles(), self.raffles()[first_active(self.raffles())].raffle_id, i),
        ensures
            self.pot_index() == i,
    {
        let id = self.raffles()[first_active(self.raffles())].raffle_id;
        let p = self.pot_index();
        assert(is_first_with_id(self.raffles(), id, p));
        if p < i {
            assert(self.raffles()[p].raffle_id != id);
        } else if i < p {
            assert(self.raffles()[i].raffle_id != id);
        }
    }

    /// The number from 1 to 60 that every draw of a call gives.
    pub open spec fn spec_random(&self, now: u64, block: u32) -> u64 {
        spec_number_from_seed(spec_seed(self.data.tickets@.last().owner, now, block))
    }

    /// The seed of the draw at block time `now` and block number `block`.
    pub fn seed(&self, now: u64, block: u32) -> (r: u64)
        requires
            self.data.tickets@.len() > 0,
        ensures
            r == spec_seed(self.data.tickets@.last().owner, now, block),
    {
        let last = self.data.tickets.len() - 1;
        let hash = hash_account(&self.data.tickets[last].owner);
        let num = u64_from_be_prefix(&hash);
        let timestamp = now;
        let block_number = block as u64;
        num ^ timestamp ^ block_number
    }

    /// A number from 1 to 60 scrambled from the seed.
    pub fn random(&self, now: u64, block: u32) -> (r: u64)
        requires
            self.data.tickets@.len() > 0,
        ensures
            r == self.spec_random(now, block),
            1 <= r <= 60,
    {
        let x = self.seed(now, block);
        number_from_seed(x)
    }

    /// The parameters of the linear generator: a seed, a multiplier, an
    /// increment and a modulus, drawn again until none of the first three
    /// exceeds the modulus. All four draws give the same number.
    pub fn roles_linear(&self, now: u64, block: u32) -> (r: Vec<u64>)
        requires
            self.data.tickets@.len() > 0,
        ensures
            same_roles(r@, self.spec_random(now, block)),
    {
        let mut result: Vec<u64> = Vec::new();
        loop
            invariant_except_break
                self.data.tickets@.len() > 0,
                result@.len() == 0,
            ensures
                same_roles(result@, self.spec_random(now, block)),
            decreases 1int,
        {
            let seed = self.random(now, block);
            let muil = self.random(now, block);
            let increment = self.random(now, block);
            let modulo = self.random(now, block);
            if muil > modulo {
                continue;
            }
            if increment > modulo {
                continue;
            }
            if seed > modulo {
                continue;
            }
            result.push(seed);
            result.push(muil);
            result.push(increment);
            result.push(modulo);
            assert(result@ =~= seq![seed, seed, seed, seed]);
            break;
        }
        result
    }

    /// The draw of six numbers by the linear generator: the parameters are
    /// a seed, a multiplier and an increment (and a modulus that bounds
    /// them); each step sets the seed to `multiplier * seed + increment`
    /// (wrapping in `u64`) and takes, from the numbers 1 to 60 not yet
    /// drawn, the one at the position the seed gives modulo how many are
    /// left. The draw is `linear_draw` of the call's random number.
    pub fn linear_random_generator(&self, now: u64, block: u32) -> (r: Vec<u64>)
        requires
            self.data.tickets@.len() > 0,
        ensures
            r@ == linear_draw(self.spec_random(now, block)),
            r@.len() == 6,
            distinct_lotto_numbers(r@),
    {
        let roles = self.roles_linear(now, block);
        let ghost x = self.spec_random(now, block);
        assert(roles@[0] == x && roles@[1] == x && roles@[2] == x);
        let mut pool: Vec<u64> = Vec::new();
        let mut n: u64 = 1;
        while n <= 60
            invariant
                1 <= n <= 61,
                pool@ == full_pool().take(n - 1),
            decreases 61 - n,
        {
            pool.push(n);
            n = n + 1;
            assert(pool@ =~= full_pool().take(n - 1));
        }
        assert(pool@ =~= full_pool());
        let mut result: Vec<u64> = Vec::new();
        let mut seed = roles[0];
        let multiplier = roles[1];
        let increment = roles[2];
        while result.len() < 6
            invariant
                result@.len() <= 6,
                pool@.len() == 60 - result@.len(),
                multiplier == x,
                increment == x,
                result@ + pool_draw(x, x, seed, pool@, (6 - result@.len()) as nat) == linear_draw(x),
            decreases 6 - result@.len(),
        {
            let ghost before = result@;
            let ghost left = pool@;
            let ghost k = (6 - result@.len()) as nat;
            let ghost prev = seed;
            seed = multiplier.wrapping_mul(seed).wrapping_add(increment);
            assert(seed == lcg_step(x, x, prev));
            let i = (seed % (pool.len() as u64)) as usize;
            assert(i as int == (seed as int) % (left.len() as int));
            let drawn = pool.remove(i);
            result.push(drawn);
            assert(pool_draw(x, x, prev, left, k) == seq![left[i as int]] + pool_draw(x, x, seed, left.remove(i as int), (k - 1) as nat));
            assert(result@ + pool_draw(x, x, seed, pool@, (k - 1) as nat) =~= before + (seq![left[i as int]] + pool_draw(x, x, seed, left.remove(i as int), (k - 1) as nat)));
        }
        assert(pool_draw(x, x, seed, pool@, 0) =~= Seq::<u64>::empty());
        assert(result@ =~= linear_draw(x));
        proof {
            lemma_full_pool();
            lemma_pool_draw(x, x, x, full_pool(), 6);
        }
        result
    }

    /// Draws the open raffle once its date has come: closes it with the
    /// six numbers of the linear generator and shares out its pot as
    /// `award_draw` does. Before its date, it answers `DrawNotStarted`.
    /// `None`, with nothing changed, where the draw cannot be shared out.
    pub fn do_raffle_lotto(&mut self, now: u64, block: u32) -> (r: Option<Result<(), LunesError>>)
        requires
            has_active(old(self).raffles()),
            old(self).raffles()[first_active(old(self).raffles())].total_accumulated * 25 <= u128::MAX,
            now >= old(self).raffles()[first_active(old(self).raffles())].date_raffle
                ==> old(self).data.tickets@.len() > 0,
        ensures
            now < old(self).raffles()[first_active(old(self).raffles())].date_raffle ==> {
                &&& r == Some(Err::<(), LunesError>(LunesError::DrawNotStarted))
                &&& *final(self) == *old(self)
            },
            now >= old(self).raffles()[first_active(old(self).raffles())].date_raffle ==> {
                let index = first_active(old(self).raffles());
                let drawn = linear_draw(old(self).spec_random(now, block));
                &&& drawn.len() == 6
                &&& distinct_lotto_numbers(drawn)
                &&& (r is Some <==> old(self).draw_shares_out(index, drawn))
                &&& r is Some ==> {
                    &&& r == Some(Ok::<(), LunesError>(()))
                    &&& old(self).shared_out(*final(self), index, drawn)
                    &&& sum_awards(final(self).winners()) + old(self).carry_over(index, drawn)
                        <= sum_awards(old(self).winners()) + old(self).raffles()[index].total_accumulated
                    &&& (forall|k: int| 0 <= k < old(self).raffles().len() && #[trigger] old(self).raffles()[k].status
                        ==> k == index) ==> exactly_one_open(final(self).raffles())
                }
                &&& r is None ==> *final(self) == *old(self)
            },
    {
        let index = self.find_active();
        assert(self.raffles()[index as int] == self.data.rafflies@[index as int]@);
        let date_raffle = self.data.rafflies[index].date_raffle;
        let total_accumulated = self.data.rafflies[index].total_accumulated;
        let value_award_2 = total_accumulated * 2 / 100;
        let value_award_3 = total_accumulated * 5 / 100;
        let value_award_4 = total_accumulated * 10 / 100;
        let value_award_5 = total_accumulated * 25 / 100;
        proof {
            law_prizes_within_pot(total_accumulated, 0, 0, 0, 0, 0);
        }
        let value_award_6 = total_accumulated - (value_award_2 + value_award_3 + value_award_4 + value_award_5);
        if now < date_raffle {
            return Some(Err(LunesError::DrawNotStarted));
        }
        let num_raffle = self.linear_random_generator(now, block);
        match self.award_draw(index, num_raffle) {
            Some(()) => Some(Ok(())),
            None => None,
        }
    }

    /// The tickets of raffle `index` that hold exactly `k` of the drawn numbers.
    pub open spec fn class(&self, index: int, drawn: Seq<u64>, k: nat) -> Seq<TicketView> {
        class_of(self.tickets(), self.raffles()[index].raffle_id, drawn, k)
    }

    /// What sharing out the draw `drawn` of raffle `index` rolls over to the
    /// next raffle: the shares of the empty prize classes.
    pub open spec fn carry_over(&self, index: int, drawn: Seq<u64>) -> int {
        let total = self.raffles()[index].total_accumulated;
        carry(award_2(total), self.class(index, drawn, 2).len()) + carry(award_3(total), self.class(index, drawn, 3).len())
            + carry(award_4(total), self.class(index, drawn, 4).len()) + carry(award_5(total), self.class(index, drawn, 5).len())
            + carry(award_6(total), self.class(index, drawn, 6).len())
    }

    /// Whether `award_draw` can share out the draw `drawn` of raffle
    /// `index`: some raffle is dated later; when that is the first raffle,
    /// the raffle opened in its place has a date and an id within `u64`;
    /// otherwise its pot can take what rolls over.
    pub open spec fn draw_shares_out(&self, index: int, drawn: Seq<u64>) -> bool {
        let rv = self.raffles()[index];
        let j = first_later(self.raffles(), rv.date_raffle);
        &&& exists|k: int| 0 <= k < self.raffles().len() && #[trigger] self.raffles()[k].date_raffle > rv.date_raffle
        &&& j == 0 ==> {
            &&& rv.date_raffle + RAFFLE_INTERVAL <= u64::MAX
            &&& self.data.next_id < u64::MAX
        }
        &&& j != 0 ==> self.raffles()[j].total_accumulated + self.carry_over(index, drawn) <= u128::MAX
    }

    /// The winners after `award_draw` shares out the draw `drawn` of raffle `index`.
    pub open spec fn winners_after(&self, index: int, drawn: Seq<u64>) -> Seq<TicketView> {
        let total = self.raffles()[index].total_accumulated;
        let c2 = self.class(index, drawn, 2);
        let c3 = self.class(index, drawn, 3);
        let c4 = self.class(index, drawn, 4);
        let c5 = self.class(index, drawn, 5);
        let c6 = self.class(index, drawn, 6);
        self.winners()
            + awarded(c2, share(award_2(total), c2.len()) as u128)
            + awarded(c3, share(award_3(total), c3.len()) as u128)
            + awarded(c4, share(award_4(total), c4.len()) as u128)
            + awarded(c5, share(award_5(total), c5.len()) as u128)
            + awarded(c6, share(award_6(total), c6.len()) as u128)
    }

    /// Whether `after` is this state with the draw `drawn` of raffle
    /// `index` shared out: the raffle closed with its draw, the winners
    /// added, and the first raffle dated later opened with what rolls over
    /// added to its pot, or, when that is the first raffle, a new open
    /// raffle added six days later at the same price with what rolls over
    /// as its pot.
    pub open spec fn shared_out(&self, after: LunesLottoContract, index: int, drawn: Seq<u64>) -> bool {
        let rv = self.raffles()[index];
        let closed = RaffleView { status: false, num_raffle: drawn, ..rv };
        let j = first_later(self.raffles(), rv.date_raffle);
        let rolled = self.carry_over(index, drawn);
        &&& after.winners() == self.winners_after(index, drawn)
        &&& after.tickets() == self.tickets()
        &&& after.owner == self.owner
        &&& j != 0 ==> {
            &&& after.raffles() == self.raffles().update(index, closed).update(
                j,
                RaffleView {
                    status: true,
                    total_accumulated: (self.raffles()[j].total_accumulated + rolled) as u128,
                    ..self.raffles()[j]
                },
            )
            &&& after.data.next_id == self.data.next_id
        }
        &&& j == 0 ==> {
            &&& after.raffles() == self.raffles().update(index, closed).push(RaffleView {
                raffle_id: self.data.next_id,
                num_raffle: Seq::empty(),
                date_raffle: (rv.date_raffle + RAFFLE_INTERVAL) as u64,
                price: rv.price,
                total_accumulated: rolled as u128,
                status: true,
            })
            &&& after.data.next_id == self.data.next_id + 1
        }
    }

    /// Shares out the draw `drawn` of raffle `index`: closes the raffle with
    /// its draw, sorts its tickets into prize classes by the number of
    /// drawn numbers they hold (two to six), splits each class's share of
    /// the pot evenly among its tickets (rounding down), adds them to the
    /// winners as prizes to collect, rolls the shares of empty classes over,
    /// and opens the first raffle dated later, or, when that is the first
    /// raffle, adds a new open raffle six days later. `None`, with nothing
    /// changed, when no raffle is dated later or an amount, date or id would
    /// leave its type.
    #[verifier::rlimit(80)]
    #[verifier::spinoff_prover]
    pub fn award_draw(&mut self, index: usize, num_raffle: Vec<u64>) -> (r: Option<()>)
        requires
            index < old(self).raffles().len(),
            old(self).raffles()[index as int].total_accumulated * 25 <= u128::MAX,
        ensures
            r is Some <==> old(self).draw_shares_out(index as int, num_raffle@),
            r is None ==> *final(self) == *old(self),
            r is Some ==> {
                &&& old(self).shared_out(*final(self), index as int, num_raffle@)
                &&& sum_awards(final(self).winners()) + old(self).carry_over(index as int, num_raffle@)
                    <= sum_awards(old(self).winners()) + old(self).raffles()[index as int].total_accumulated
                &&& (forall|k: int| 0 <= k < old(self).raffles().len() && #[trigger] old(self).raffles()[k].status
                    ==> k == index) ==> exactly_one_open(final(self).raffles())
                &&& forall|i: int| old(self).winners().len() <= i < final(self).winners().len() ==> is_draw_prize(
                    #[trigger] final(self).winners()[i],
                    old(self).raffles()[index as int].raffle_id,
                    num_raffle@,
                )
                &&& forall|j: int|
                    0 <= j < old(self).tickets().len() && old(self).tickets()[j].raffle_id == old(self).raffles()[index as int].raffle_id
                        && 2 <= hits(old(self).tickets()[j].game_raffle, num_raffle@) <= 6 ==> exists|i: int|
                        old(self).winners().len() <= i < final(self).winners().len() && #[trigger] final(self).winners()[i]
                            == (TicketView { value_award: final(self).winners()[i].value_award, status: true, ..old(self).tickets()[j] })
            },
    {
        let ghost start = *self;
        assert(self.raffles()[index as int] == self.data.rafflies@[index as int]@);
        let ghost rv = self.raffles()[index as int];
        let ghost drawn = num_raffle@;
        let ghost ts = self.tickets();
        let date_raffle = self.data.rafflies[index].date_raffle;
        let raffle_id = self.data.rafflies[index].raffle_id;
        let total_accumulated = self.data.rafflies[index].total_accumulated;
        let price_ticket = self.data.rafflies[index].price;
        let value_award_2 = total_accumulated * 2 / 100;
        let value_award_3 = total_accumulated * 5 / 100;
        let value_award_4 = total_accumulated * 10 / 100;
        let value_award_5 = total_accumulated * 25 / 100;
        proof {
            law_prizes_within_pot(total_accumulated, 0, 0, 0, 0, 0);
        }
        let value_award_6 = total_accumulated - (value_award_2 + value_award_3 + value_award_4 + value_award_5);

        let mut winner_2: Vec<LunesTicket> = Vec::new();
        let mut winner_3: Vec<LunesTicket> = Vec::new();
        let mut winner_4: Vec<LunesTicket> = Vec::new();
        let mut winner_5: Vec<LunesTicket> = Vec::new();
        let mut winner_6: Vec<LunesTicket> = Vec::new();
        let mut i: usize = 0;
        while i < self.data.tickets.len()
            invariant
                i <= self.data.tickets@.len(),
                ts == self.tickets(),
                drawn == num_raffle@,
                tickets_view(winner_2@) == class_of(ts.take(i as int), raffle_id, drawn, 2),
                tickets_view(winner_3@) == class_of(ts.take(i as int), raffle_id, drawn, 3),
                tickets_view(winner_4@) == class_of(ts.take(i as int), raffle_id, drawn, 4),
                tickets_view(winner_5@) == class_of(ts.take(i as int), raffle_id, drawn, 5),
                tickets_view(winner_6@) == class_of(ts.take(i as int), raffle_id, drawn, 6),
            decreases self.data.tickets.len() - i,
        {
            assert(ts.take(i + 1).drop_last() =~= ts.take(i as int));
            assert(ts.take(i + 1).last() == self.data.tickets@[i as int]@);
            if self.data.tickets[i].raffle_id == raffle_id {
                let matching_numbers = count_hits(&self.data.tickets[i].game_raffle, &num_raffle);
                if matching_numbers == 2 {
                    winner_2.push(self.data.tickets[i].copy());
                } else if matching_numbers == 3 {
                    winner_3.push(self.data.tickets[i].copy());
                } else if matching_numbers == 4 {
                    winner_4.push(self.data.tickets[i].copy());
                } else if matching_numbers == 5 {
                    winner_5.push(self.data.tickets[i].copy());
                } else if matching_numbers == 6 {
                    winner_6.push(self.data.tickets[i].copy());
                }
            }
            assert(tickets_view(winner_2@) =~= class_of(ts.take(i + 1), raffle_id, drawn, 2));
            assert(tickets_view(winner_3@) =~= class_of(ts.take(i + 1), raffle_id, drawn, 3));
            assert(tickets_view(winner_4@) =~= class_of(ts.take(i + 1), raffle_id, drawn, 4));
            assert(tickets_view(winner_5@) =~= class_of(ts.take(i + 1), raffle_id, drawn, 5));
            assert(tickets_view(winner_6@) =~= class_of(ts.take(i + 1), raffle_id, drawn, 6));
            i = i + 1;
        }
        assert(ts.take(ts.len() as int) =~= ts);
        assert(tickets_view(winner_2@) == self.class(index as int, drawn, 2));
        assert(tickets_view(winner_3@) == self.class(index as int, drawn, 3));
        assert(tickets_view(winner_4@) == self.class(index as int, drawn, 4));
        assert(tickets_view(winner_5@) == self.class(index as int, drawn, 5));
        assert(tickets_view(winner_6@) == self.class(index as int, drawn, 6));
        let total_per_pay_2 = split_share(value_award_2, winner_2.len());
        let total_per_pay_3 = split_share(value_award_3, winner_3.len());
        let total_per_pay_4 = split_share(value_award_4, winner_4.len());
        let total_per_pay_5 = split_share(value_award_5, winner_5.len());
        let total_per_pay_6 = split_share(value_award_6, winner_6.len());
        let mut value_award_next: u128 = 0;
        if winner_2.len() == 0 {
            value_award_next = value_award_next + value_award_2;
        }
        if winner_3.len() == 0 {
            value_award_next = value_award_next + value_award_3;
        }
        if winner_4.len() == 0 {
            value_award_next = value_award_next + value_award_4;
        }
        if winner_5.len() == 0 {
            value_award_next = value_award_next + value_award_5;
        }
        if winner_6.len() == 0 {
            value_award_next = value_award_next + value_award_6;
        }
        assert(value_award_next == self.carry_over(index as int, drawn));
        let next_reffer_index = match self.find_later(date_raffle) {
            Some(j) => j,
            None => {
                return None;
            },
        };
        proof {
            self.lemma_first_later(date_raffle, next_reffer_index as int);
        }
        let next_id = self.data.next_id;
        if next_reffer_index == 0 {
            if date_raffle > u64::MAX - RAFFLE_INTERVAL || next_id == u64::MAX {
                return None;
            }
        } else {
            assert(self.raffles()[next_reffer_index as int] == self.data.rafflies@[next_reffer_index as int]@);
            if self.data.rafflies[next_reffer_index].total_accumulated > u128::MAX - value_award_next {
                return None;
            }
        }
        assert(self.draw_shares_out(index as int, drawn));
        proof {
            self.law_draw_within_pot(index as int, drawn);
        }

        let ghost before_raffles = self.raffles();
        let mut closed = self.data.rafflies[index].copy();
        closed.status = false;
        closed.num_raffle = num_raffle;
        self.data.rafflies.set(index, closed);
        assert(self.raffles() =~= before_raffles.update(index as int, RaffleView { status: false, num_raffle: drawn, ..rv }));

        append_awarded(&mut self.data.winners, winner_2, total_per_pay_2);
        append_awarded(&mut self.data.winners, winner_3, total_per_pay_3);
        append_awarded(&mut self.data.winners, winner_4, total_per_pay_4);
        append_awarded(&mut self.data.winners, winner_5, total_per_pay_5);
        append_awarded(&mut self.data.winners, winner_6, total_per_pay_6);

        let ghost mid_raffles = self.raffles();
        if next_reffer_index != 0 {
            let mut next = self.data.rafflies[next_reffer_index].copy();
            next.status = true;
            next.total_accumulated = next.total_accumulated + value_award_next;
            self.data.rafflies.set(next_reffer_index, next);
            assert(self.raffles() =~= mid_raffles.update(
                next_reffer_index as int,
                RaffleView {
                    status: true,
                    total_accumulated: (before_raffles[next_reffer_index as int].total_accumulated + value_award_next) as u128,
                    ..before_raffles[next_reffer_index as int]
                },
            ));
            proof {
                let rs = self.raffles();
                let j = next_reffer_index as int;
                if forall|k: int| 0 <= k < before_raffles.len() && #[trigger] before_raffles[k].status ==> k == index {
                    assert(rs[j].status);
                    assert forall|m: int| 0 <= m < rs.len() && #[trigger] rs[m].status implies m == j by {
                        if m != j && m != index {
                            assert(rs[m] == before_raffles[m]);
                        }
                    }
                    assert(exactly_one_open(rs));
                }
            }
        } else {
            self.data.rafflies.push(LunesLotto {
                raffle_id: next_id,
                num_raffle: Vec::new(),
                date_raffle: date_raffle + RAFFLE_INTERVAL,
                price: price_ticket,
                total_accumulated: value_award_next,
                status: true,
            });
            self.data.next_id = self.data.next_id + 1;
            assert(self.raffles() =~= mid_raffles.push(RaffleView {
                raffle_id: next_id,
                num_raffle: Seq::empty(),
                date_raffle: (date_raffle + RAFFLE_INTERVAL) as u64,
                price: price_ticket,
                total_accumulated: value_award_next,
                status: true,
            }));
            proof {
                let rs = self.raffles();
                let j = rs.len() - 1;
                if forall|k: int| 0 <= k < before_raffles.len() && #[trigger] before_raffles[k].status ==> k == index {
                    assert(rs[j].status);
                    assert forall|m: int| 0 <= m < rs.len() && #[trigger] rs[m].status implies m == j by {
                        if m != j && m != index {
                            assert(rs[m] == before_raffles[m]);
                        }
                    }
                    assert(exactly_one_open(rs));
                }
            }
        }
        proof {
            assert(start.shared_out(*self, index as int, drawn));
            Self::law_draw_winners(start, *self, index as int, drawn);
        }
        Some(())
    }

    /// Sharing out a draw never hands out more than the raffle's pot: the
    /// awards that it adds to the winners, together with what rolls over
    /// to the next raffle, sum to at most the pot.
    pub proof fn law_draw_within_pot(&self, index: int, drawn: Seq<u64>)
        requires
            0 <= index < self.raffles().len(),
        ensures
            sum_awards(self.winners_after(index, drawn)) + self.carry_over(index, drawn)
                <= sum_awards(self.winners()) + self.raffles()[index].total_accumulated,
    {
        let total = self.raffles()[index].total_accumulated;
        let c2 = self.class(index, drawn, 2);
        let c3 = self.class(index, drawn, 3);
        let c4 = self.class(index, drawn, 4);
        let c5 = self.class(index, drawn, 5);
        let c6 = self.class(index, drawn, 6);
        law_prizes_within_pot(total, c2.len(), c3.len(), c4.len(), c5.len(), c6.len());
        lemma_share_fits(award_2(total), c2.len(), total);
        lemma_share_fits(award_3(total), c3.len(), total);
        lemma_share_fits(award_4(total), c4.len(), total);
        lemma_share_fits(award_5(total), c5.len(), total);
        lemma_share_fits(award_6(total), c6.len(), total);
        let p2 = share(award_2(total), c2.len()) as u128;
        let p3 = share(award_3(total), c3.len()) as u128;
        let p4 = share(award_4(total), c4.len()) as u128;
        let p5 = share(award_5(total), c5.len()) as u128;
        let p6 = share(award_6(total), c6.len()) as u128;
        lemma_sum_awarded(c2, p2);
        lemma_sum_awarded(c3, p3);
        lemma_sum_awarded(c4, p4);
        lemma_sum_awarded(c5, p5);
        lemma_sum_awarded(c6, p6);
        let w = self.winners();
        let a2 = awarded(c2, p2);
        let a3 = awarded(c3, p3);
        let a4 = awarded(c4, p4);
        let a5 = awarded(c5, p5);
        let a6 = awarded(c6, p6);
        lemma_sum_awards_concat(w, a2);
        lemma_sum_awards_concat(w + a2, a3);
        lemma_sum_awards_concat(w + a2 + a3, a4);
        lemma_sum_awards_concat(w + a2 + a3 + a4, a5);
        lemma_sum_awards_concat(w + a2 + a3 + a4 + a5, a6);
    }

    /// A draw adds to the winners only prizes of the raffle drawn, and one
    /// for each of its tickets that holds two to six of the drawn numbers:
    /// the winners before stay as they were, every winner added is a ticket
    /// of that raffle with two to six hits and its prize to collect, and
    /// every such ticket of the raffle is among those added.
    pub proof fn law_draw_winners(before: LunesLottoContract, after: LunesLottoContract, index: int, drawn: Seq<u64>)
        requires
            0 <= index < before.raffles().len(),
            before.shared_out(after, index, drawn),
        ensures
            before.winners().len() <= after.winners().len(),
            after.winners().subrange(0, before.winners().len() as int) == before.winners(),
            forall|i: int| before.winners().len() <= i < after.winners().len() ==> is_draw_prize(
                #[trigger] after.winners()[i],
                before.raffles()[index].raffle_id,
                drawn,
            ),
            forall|j: int|
                0 <= j < before.tickets().len() && before.tickets()[j].raffle_id == before.raffles()[index].raffle_id && 2
                    <= hits(before.tickets()[j].game_raffle, drawn) <= 6 ==> exists|i: int|
                    before.winners().len() <= i < after.winners().len() && #[trigger] after.winners()[i] == (TicketView {
                        value_award: after.winners()[i].value_award,
                        status: true,
                        ..before.tickets()[j]
                    }),
    {
        let ts = before.tickets();
        let id = before.raffles()[index].raffle_id;
        let total = before.raffles()[index].total_accumulated;
        let c2 = before.class(index, drawn, 2);
        let c3 = before.class(index, drawn, 3);
        let c4 = before.class(index, drawn, 4);
        let c5 = before.class(index, drawn, 5);
        let c6 = before.class(index, drawn, 6);
        let a2 = awarded(c2, share(award_2(total), c2.len()) as u128);
        let a3 = awarded(c3, share(award_3(total), c3.len()) as u128);
        let a4 = awarded(c4, share(award_4(total), c4.len()) as u128);
        let a5 = awarded(c5, share(award_5(total), c5.len()) as u128);
        let a6 = awarded(c6, share(award_6(total), c6.len()) as u128);
        lemma_awarded_class(ts, id, drawn, 2, share(award_2(total), c2.len()) as u128);
        lemma_awarded_class(ts, id, drawn, 3, share(award_3(total), c3.len()) as u128);
        lemma_awarded_class(ts, id, drawn, 4, share(award_4(total), c4.len()) as u128);
        lemma_awarded_class(ts, id, drawn, 5, share(award_5(total), c5.len()) as u128);
        lemma_awarded_class(ts, id, drawn, 6, share(award_6(total), c6.len()) as u128);
        let w0 = before.winners();
        let n = w0.len() as int;
        let w = after.winners();
        assert(w == w0 + a2 + a3 + a4 + a5 + a6);
        let o3 = n + a2.len();
        let o4 = o3 + a3.len();
        let o5 = o4 + a4.len();
        let o6 = o5 + a5.len();
        assert(w.subrange(0, n) =~= w0);
        assert forall|i: int| n <= i < w.len() implies is_draw_prize(#[trigger] w[i], id, drawn) by {
            if i < o3 {
                assert(w[i] == a2[i - n]);
            } else if i < o4 {
                assert(w[i] == a3[i - o3]);
            } else if i < o5 {
                assert(w[i] == a4[i - o4]);
            } else if i < o6 {
                assert(w[i] == a5[i - o5]);
            } else {
                assert(w[i] == a6[i - o6]);
            }
        }
        assert forall|j: int|
            0 <= j < ts.len() && ts[j].raffle_id == id && 2 <= hits(ts[j].game_raffle, drawn) <= 6 implies exists|i: int|
            n <= i < w.len() && #[trigger] w[i] == (TicketView { value_award: w[i].value_award, status: true, ..ts[j] }) by {
            let h = hits(ts[j].game_raffle, drawn);
            if h == 2 {
                let m = choose|m: int| 0 <= m < a2.len() && #[trigger] a2[m] == (TicketView { value_award: share(award_2(total), c2.len()) as u128, status: true, ..ts[j] });
                assert(w[n + m] == a2[m]);
            } else if h == 3 {
                let m = choose|m: int| 0 <= m < a3.len() && #[trigger] a3[m] == (TicketView { value_award: share(award_3(total), c3.len()) as u128, status: true, ..ts[j] });
                assert(w[o3 + m] == a3[m]);
            } else if h == 4 {
                let m = choose|m: int| 0 <= m < a4.len() && #[trigger] a4[m] == (TicketView { value_award: share(award_4(total), c4.len()) as u128, status: true, ..ts[j] });
                assert(w[o4 + m] == a4[m]);
            } else if h == 5 {
                let m = choose|m: int| 0 <= m < a5.len() && #[trigger] a5[m] == (TicketView { value_award: share(award_5(total), c5.len()) as u128, status: true, ..ts[j] });
                assert(w[o5 + m] == a5[m]);
            } else {
                let m = choose|m: int| 0 <= m < a6.len() && #[trigger] a6[m] == (TicketView { value_award: share(award_6(total), c6.len()) as u128, status: true, ..ts[j] });
                assert(w[o6 + m] == a6[m]);
            }
        }
    }

    /// The position of the first raffle dated after `date`, if any.
    fn find_later(&self, date: u64) -> (r: Option<usize>)
        ensures
            match r {
                Some(j) => is_first_later(self.raffles(), date, j as int),
                None => forall|j: int| 0 <= j < self.raffles().len() ==> self.raffles()[j].date_raffle <= date,
            },
    {
        let mut j: usize = 0;
        while j < self.data.rafflies.len()
            invariant
                j <= self.data.rafflies@.len(),
                forall|i: int| 0 <= i < j ==> self.raffles()[i].date_raffle <= date,
            decreases self.data.rafflies.len() - j,
        {
            assert(self.raffles()[j as int] == self.data.rafflies@[j as int]@);
            if self.data.rafflies[j].date_raffle > date {
                return Some(j);
            }
            j = j + 1;
        }
        None
    }

    /// The first raffle dated after `date` is unique.
    proof fn lemma_first_later(&self, date: u64, j: int)
        requires
            is_first_later(self.raffles(), date, j),
        ensures
            first_later(self.raffles(), date) == j,
    {
        let f = first_later(self.raffles(), date);
        assert(is_first_later(self.raffles(), date, f));
        if f < j {
            assert(self.raffles()[f].date_raffle <= date);
        } else if j < f {
            assert(self.raffles()[j].date_raffle <= date);
        }
    }

    /// The position of the first raffle with id `raffle_id`.
    fn find_with_id(&self, raffle_id: u64) -> (r: usize)
        requires
            exists|i: int| 0 <= i < self.raffles().len() && self.raffles()[i].raffle_id == raffle_id,
        ensures
            is_first_with_id(self.raffles(), raffle_id, r as int),
    {
        let mut i: usize = 0;
        while i < self.data.rafflies.len()
            invariant
                i <= self.data.rafflies@.len(),
                exists|k: int| 0 <= k < self.raffles().len() && self.raffles()[k].raffle_id == raffle_id,
                forall|j: int| 0 <= j < i ==> self.raffles()[j].raffle_id != raffle_id,
            decreases self.data.rafflies.len() - i,
        {
            if self.data.rafflies[i].raffle_id == raffle_id {
                return i;
            }
            i = i + 1;
        }
        let ghost k = choose|k: int| 0 <= k < self.raffles().len() && self.raffles()[k].raffle_id == raffle_id;
        assert(self.raffles()[k].raffle_id == raffle_id);
        0
    }

    /// Adds a raffle, closed, with the value sent as its pot; owner only.
    pub fn create_raffle_lotto(&mut self, caller: AccountId, transferred_value: u128, date_raffle: u64, price: u128) -> (r: Result<(), OwnerError>)
        requires
            old(self).owner == Some(caller) ==> old(self).data.next_id < u64::MAX,
        ensures
            match r {
                Ok(()) => {
                    &&& old(self).owner == Some(caller)
                    &&& final(self).raffles() == old(self).raffles().push(RaffleView {
                        raffle_id: old(self).data.next_id,
                        num_raffle: Seq::empty(),
                        date_raffle,
                        price,
                        total_accumulated: transferred_value,
                        status: false,
                    })
                    &&& final(self).data.next_id == old(self).data.next_id + 1
                    &&& final(self).tickets() == old(self).tickets()
                    &&& final(self).winners() == old(self).winners()
                    &&& final(self).owner == old(self).owner
                    &&& ids_fresh(old(self).raffles(), old(self).data.next_id)
                        ==> ids_fresh(final(self).raffles(), final(self).data.next_id)
                },
                Err(e) => {
                    &&& e == OwnerError::CallerIsNotOwner
                    &&& old(self).owner != Some(caller)
                    &&& *final(self) == *old(self)
                },
            },
    {
        if !is_owner(&self.owner, &caller) {
            return Err(OwnerError::CallerIsNotOwner);
        }
        let id = self.data.next_id;
        self.data.rafflies.push(LunesLotto {
            raffle_id: id,
            num_raffle: Vec::new(),
            date_raffle: date_raffle,
            price: price,
            total_accumulated: transferred_value,
            status: false,
        });
        self.data.next_id = self.data.next_id + 1;
        assert(self.raffles() =~= old(self).raffles().push(RaffleView {
            raffle_id: old(self).data.next_id,
            num_raffle: Seq::empty(),
            date_raffle,
            price,
            total_accumulated: transferred_value,
            status: false,
        }));
        Ok(())
    }

    /// The page `page` (from 1) of `caller`'s tickets, a hundred a page.
    pub fn my_games(&self, caller: AccountId, page: u64) -> (r: Result<Vec<LunesTicket>, LunesError>)
        requires
            page >= 1,
            (page - 1) * 100 <= usize::MAX,
        ensures
            r matches Ok(v) && tickets_view(v@) == window(tickets_of(self.tickets(), caller), (page - 1) * 100, 100),
    {
        let skip = ((page - 1) * 100) as usize;
        let mut games: Vec<LunesTicket> = Vec::new();
        let mut seen: usize = 0;
        let mut i: usize = 0;
        while i < self.data.tickets.len()
            invariant
                i <= self.data.tickets@.len(),
                seen == tickets_of(self.tickets().take(i as int), caller).len(),
                seen <= i,
                tickets_view(games@) == window(tickets_of(self.tickets().take(i as int), caller), skip as int, 100),
            decreases self.data.tickets.len() - i,
        {
            let ghost prefix = self.tickets().take(i as int);
            assert(self.tickets().take(i + 1).drop_last() =~= prefix);
            assert(self.tickets().take(i + 1).last() == self.data.tickets@[i as int]@);
            proof {
                lemma_window_push(tickets_of(prefix, caller), self.data.tickets@[i as int]@, skip as int, 100);
            }
            if same_account(&self.data.tickets[i].owner, &caller) {
                if skip <= seen && seen - skip < 100 {
                    let ghost before = games@;
                    games.push(self.data.tickets[i].copy());
                    assert(tickets_view(games@) =~= tickets_view(before).push(self.data.tickets@[i as int]@));
                }
                seen = seen + 1;
            }
            i = i + 1;
        }
        assert(self.tickets().take(self.data.tickets@.len() as int) =~= self.tickets());
        Ok(games)
    }

    /// The page `page` (from 1) of the raffles with id `raffle_id`, a hundred a page.
    pub fn all_raffle(&self, raffle_id: u64, page: u64) -> (r: Result<Vec<LunesLotto>, LunesError>)
        requires
            page >= 1,
            (page - 1) * 100 <= usize::MAX,
        ensures
            r matches Ok(v) && {
                &&& raffles_view(v@) == window(raffles_with_id(self.raffles(), raffle_id), (page - 1) * 100, 100)
                &&& v@.len() <= 100
                &&& forall|i: int| 0 <= i < v@.len() ==> (#[trigger] v@[i]).raffle_id == raffle_id
                &&& forall|i: int| 0 <= i < v@.len() ==> self.raffles().contains(#[trigger] v@[i]@)
            },
    {
        let skip = ((page - 1) * 100) as usize;
        let mut games: Vec<LunesLotto> = Vec::new();
        let mut seen: usize = 0;
        let mut i: usize = 0;
        while i < self.data.rafflies.len()
            invariant
                i <= self.data.rafflies@.len(),
                seen == raffles_with_id(self.raffles().take(i as int), raffle_id).len(),
                seen <= i,
                raffles_view(games@) == window(raffles_with_id(self.raffles().take(i as int), raffle_id), skip as int, 100),
            decreases self.data.rafflies.len() - i,
        {
            let ghost prefix = self.raffles().take(i as int);
            assert(self.raffles().take(i + 1).drop_last() =~= prefix);
            assert(self.raffles().take(i + 1).last() == self.data.rafflies@[i as int]@);
            proof {
                lemma_window_push(raffles_with_id(prefix, raffle_id), self.data.rafflies@[i as int]@, skip as int, 100);
            }
            if self.data.rafflies[i].raffle_id == raffle_id {
                if skip <= seen && seen - skip < 100 {
                    let ghost before = games@;
                    games.push(self.data.rafflies[i].copy());
                    assert(raffles_view(games@) =~= raffles_view(before).push(self.data.rafflies@[i as int]@));
                }
                seen = seen + 1;
            }
            i = i + 1;
        }
        assert(self.raffles().take(self.data.rafflies@.len() as int) =~= self.raffles());
        proof {
            let listed = raffles_with_id(self.raffles(), raffle_id);
            let page_start = (page - 1) * 100;
            law_raffles_with_id(self.raffles(), raffle_id);
            law_page_entries(listed, page_start, 100);
            law_page_size(listed, page_start, 100);
            assert forall|i: int| 0 <= i < games@.len() implies (#[trigger] games@[i]).raffle_id == raffle_id
                && self.raffles().contains(games@[i]@) by {
                assert(raffles_view(games@)[i] == games@[i]@);
                assert(listed.contains(window(listed, page_start, 100)[i]));
                let k = choose|k: int| 0 <= k < listed.len() && listed[k] == games@[i]@;
                assert(listed[k].raffle_id == raffle_id);
                assert(self.raffles().contains(listed[k]));
            }
        }
        Ok(games)
    }

    /// The winning tickets of raffle `raffle_id`.
    pub fn winner_raffle(&self, raffle_id: u64) -> (r: Result<Vec<LunesTicket>, LunesError>)
        ensures
            r matches Ok(v) && {
                &&& tickets_view(v@) == tickets_in(self.winners(), raffle_id)
                &&& forall|i: int| 0 <= i < v@.len() ==> (#[trigger] v@[i]).raffle_id == raffle_id
                &&& forall|j: int| 0 <= j < self.winners().len() && self.winners()[j].raffle_id == raffle_id
                    ==> tickets_view(v@).contains(#[trigger] self.winners()[j])
                &&& v@.len() == self.winners().filter(|t: TicketView| t.raffle_id == raffle_id).len()
            },
    {
        let mut winners: Vec<LunesTicket> = Vec::new();
        let mut i: usize = 0;
        while i < self.data.winners.len()
            invariant
                i <= self.data.winners@.len(),
                tickets_view(winners@) == tickets_in(self.winners().take(i as int), raffle_id),
            decreases self.data.winners.len() - i,
        {
            assert(self.winners().take(i + 1).drop_last() =~= self.winners().take(i as int));
            assert(self.winners().take(i + 1).last() == self.data.winners@[i as int]@);
            if self.data.winners[i].raffle_id == raffle_id {
                let ghost before = winners@;
                winners.push(self.data.winners[i].copy());
                assert(tickets_view(winners@) =~= tickets_view(before).push(self.data.winners@[i as int]@));
            }
            i = i + 1;
        }
        assert(self.winners().take(self.data.winners@.len() as int) =~= self.winners());
        proof {
            law_tickets_in_raffle(self.winners(), raffle_id);
            assert forall|i: int| 0 <= i < winners@.len() implies (#[trigger] winners@[i]).raffle_id == raffle_id by {
                assert(tickets_view(winners@)[i] == winners@[i]@);
            }
        }
        return Ok(winners);
    }

    /// The position of a winning ticket of `caller` still to be collected.
    fn find_collectable(&self, caller: &AccountId) -> (r: Option<usize>)
        ensures
            match r {
                Some(k) => is_first_open(self.winners(), *caller, k as int),
                None => forall|j: int| 0 <= j < self.winners().len() && self.winners()[j].owner == *caller
                    ==> !self.winners()[j].status,
            },
    {
        let mut k: usize = 0;
        while k < self.data.winners.len()
            invariant
                k <= self.data.winners@.len(),
                forall|j: int| 0 <= j < k && self.winners()[j].owner == *caller ==> !self.winners()[j].status,
            decreases self.data.winners.len() - k,
        {
            assert(self.winners()[k as int] == self.data.winners@[k as int]@);
            if same_account(&self.data.winners[k].owner, caller) && self.data.winners[k].status {
                return Some(k);
            }
            k = k + 1;
        }
        None
    }

    /// Pays `caller` a prize: the first winning ticket of `caller` still
    /// to be collected is marked collected and its award is sent to
    /// `caller`; `WithdrawalFailed` when there is none.
    pub fn payment(&mut self, caller: AccountId) -> (r: Result<Transfer, LunesError>)
        ensures
            final(self).data.next_id == old(self).data.next_id,
            final(self).raffles() == old(self).raffles(),
            final(self).tickets() == old(self).tickets(),
            final(self).owner == old(self).owner,
            match r {
                Ok(t) => exists|i: int| {
                    &&& is_first_open(old(self).winners(), caller, i)
                    &&& t == Transfer { to: caller, amount: old(self).winners()[i].value_award }
                    &&& final(self).winners() == old(self).winners().update(
                        i,
                        TicketView { status: false, ..old(self).winners()[i] },
                    )
                    &&& open_awards(final(self).winners(), caller) + t.amount == open_awards(old(self).winners(), caller)
                },
                Err(e) => {
                    &&& e == LunesError::WithdrawalFailed
                    &&& forall|j: int| 0 <= j < old(self).winners().len() && old(self).winners()[j].owner == caller
                        ==> !old(self).winners()[j].status
                    &&& open_awards(old(self).winners(), caller) == 0
                    &&& *final(self) == *old(self)
                },
            },
    {
        let index = match self.find_collectable(&caller) {
            Some(k) => k,
            None => {
                proof {
                    lemma_open_awards_none(self.winners(), caller);
                }
                return Err(LunesError::WithdrawalFailed);
            },
        };
        let ghost before = self.winners();
        let mut winner = self.data.winners[index].copy();
        winner.status = false;
        let amount = winner.value_award;
        self.data.winners.set(index, winner);
        assert(self.winners() =~= before.update(index as int, TicketView { status: false, ..before[index as int] }));
        proof {
            lemma_open_awards_close(before, caller, index as int);
        }
        Ok(Transfer { to: caller, amount })
    }
}

/// A class's share fits in `u128` once taken as an award.
pub proof fn lemma_share_fits(a: int, n: nat, total: u128)
    requires
        0 <= a <= total,
    ensures
        0 <= share(a, n) <= total,
        (share(a, n) as u128) as int == share(a, n),
{
    if n > 0 {
        vstd::arithmetic::div_mod::lemma_div_pos_is_pos(a, n as int);
        vstd::arithmetic::div_mod::lemma_div_is_ordered_by_denominator(a, 1, n as int);
    }
}

/// What each ticket of a class of `n` gets of the class's share `a`.
pub fn split_share(a: u128, n: usize) -> (r: u128)
    ensures
        r == share(a as int, n as nat),
{
    if n == 0 {
        0
    } else {
        a / (n as u128)
    }
}

/// Adds the tickets of a prize class to `winners`, each with the award
/// `per` and marked as still to be collected.
pub fn append_awarded(winners: &mut Vec<LunesTicket>, class: Vec<LunesTicket>, per: u128)
    ensures
        tickets_view(final(winners)@) == tickets_view(old(winners)@) + awarded(tickets_view(class@), per),
{
    let ghost start = tickets_view(winners@);
    let mut i: usize = 0;
    while i < class.len()
        invariant
            i <= class@.len(),
            tickets_view(winners@) == start + awarded(tickets_view(class@.take(i as int)), per),
        decreases class.len() - i,
    {
        let mut w = class[i].copy();
        w.value_award = per;
        w.status = true;
        let ghost before = winners@;
        winners.push(w);
        assert(tickets_view(winners@) =~= tickets_view(before).push(w@));
        assert(awarded(tickets_view(class@.take(i + 1)), per) =~= awarded(tickets_view(class@.take(i as int)), per).push(w@));
        i = i + 1;
    }
    assert(class@.take(class@.len() as int) =~= class@);
}

} // verus!
