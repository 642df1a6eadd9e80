use lotto_lunes::common::{OwnerError, Transfer};
use lotto_lunes::lunes_lotto::{
    Data, ListNumRaffle, LunesError, LunesLotto, LunesLottoContract, LunesTicket, RAFFLE_INTERVAL,
};

const OWNER: [u8; 32] = [7u8; 32];
const ALICE: [u8; 32] = [1u8; 32];
const BOB: [u8; 32] = [2u8; 32];

fn raffle(id: u64, date: u64, total: u128, status: bool) -> LunesLotto {
    LunesLotto { raffle_id: id, num_raffle: vec![], date_raffle: date, price: 10, total_accumulated: total, status }
}

fn ticket(raffle_id: u64, owner: [u8; 32], game: Vec<u64>) -> LunesTicket {
    LunesTicket { raffle_id, game_raffle: game, date_create: 3, value_award: 0, owner, status: false }
}

fn contract(rafflies: Vec<LunesLotto>, tickets: Vec<LunesTicket>) -> LunesLottoContract {
    LunesLottoContract {
        data: Data { next_id: 10, rafflies, tickets, winners: vec![] },
        owner: Some(OWNER),
    }
}

fn pick(n: [u64; 6]) -> ListNumRaffle {
    ListNumRaffle { num_1: n[0], num_2: n[1], num_3: n[2], num_4: n[3], num_5: n[4], num_6: n[5] }
}

#[test]
fn lunes_error_names() {
    assert_eq!(LunesError::BadMintValue.as_str(), "BadMintValue");
    assert_eq!(LunesError::DrawNotStarted.as_str(), "DrawNotStarted");
    assert_eq!(LunesError::WithdrawalFailed.as_str(), "WithdrawalFailed");
}

#[test]
fn check_amount_accepts_exact_valid_purchase() {
    let c = contract(vec![raffle(4, 100, 0, false), raffle(5, 200, 0, true)], vec![]);
    assert_eq!(c.check_amount(10, &vec![pick([1, 2, 3, 4, 5, 6])]), Ok(5));
    assert_eq!(c.check_amount(20, &vec![pick([1, 2, 3, 4, 5, 6]), pick([60, 59, 58, 57, 56, 55])]), Ok(5));
    assert_eq!(c.check_amount(0, &vec![]), Ok(5));
    assert_eq!(c.check_amount(1, &vec![]), Err(LunesError::BadMintValue));
    assert_eq!(c.check_amount(11, &vec![pick([1, 2, 3, 4, 5, 6])]), Err(LunesError::BadMintValue));
    assert_eq!(c.check_amount(10, &vec![pick([1, 2, 3, 4, 5, 5])]), Err(LunesError::BadMintValue));
    assert_eq!(c.check_amount(10, &vec![pick([0, 2, 3, 4, 5, 6])]), Err(LunesError::BadMintValue));
    assert_eq!(c.check_amount(10, &vec![pick([1, 2, 3, 4, 5, 61])]), Err(LunesError::BadMintValue));
}

#[test]
fn lunes_play_lunes_outcomes() {
    let mut c = contract(vec![raffle(5, 200, 100, true)], vec![]);
    // 17% of 20 is 3 (rounded down): 17 joins the pot and goes to the owner
    assert_eq!(c.play_lunes(ALICE, 9, 20, vec![pick([1, 2, 3, 4, 5, 6]), pick([7, 8, 9, 10, 11, 12])]), Ok(Transfer { to: OWNER, amount: 17 }));
    assert_eq!(c.data.tickets.len(), 2);
    assert_eq!(c.data.tickets[1].game_raffle, vec![7, 8, 9, 10, 11, 12]);
    assert_eq!(c.data.tickets[1].raffle_id, 5);
    assert_eq!(c.data.tickets[1].date_create, 9);
    assert_eq!(c.data.rafflies[0].total_accumulated, 117);
    assert_eq!(c.play_lunes(ALICE, 1, 10, vec![pick([1, 2, 3, 4, 5, 5])]), Err(LunesError::BadMintValue));
    assert_eq!(c.data.tickets.len(), 2);
    assert_eq!(c.data.rafflies[0].total_accumulated, 117);
}

#[test]
fn create_ticket_appends_one_per_pick() {
    let mut c = contract(vec![raffle(5, 200, 0, true)], vec![]);
    assert_eq!(c.create_ticket(5, ALICE, vec![pick([1, 2, 3, 4, 5, 6]), pick([7, 8, 9, 10, 11, 12])], 99), Ok(()));
    assert_eq!(c.data.tickets.len(), 2);
    assert_eq!(c.data.tickets[1].game_raffle, vec![7, 8, 9, 10, 11, 12]);
    assert_eq!(c.data.tickets[1].owner, ALICE);
    assert_eq!(c.data.tickets[1].date_create, 99);
    assert!(!c.data.tickets[1].status);
}

#[test]
fn lunes_create_raffle_owner_only() {
    let mut c = contract(vec![], vec![]);
    assert_eq!(c.create_raffle_lotto(ALICE, 5, 100, 3), Err(OwnerError::CallerIsNotOwner));
    assert_eq!(c.create_raffle_lotto(OWNER, 5, 100, 3), Ok(()));
    assert_eq!(c.data.next_id, 11);
    let r = &c.data.rafflies[0];
    assert_eq!((r.raffle_id, r.date_raffle, r.price, r.total_accumulated, r.status), (10, 100, 3, 5, false));
}

#[test]
fn my_games_pages_of_hundred() {
    let mut tickets = vec![];
    for i in 0..300u64 {
        let owner = if i % 2 == 0 { ALICE } else { BOB };
        tickets.push(ticket(1, owner, vec![i]));
    }
    let c = contract(vec![], tickets);
    let p1 = c.my_games(ALICE, 1).unwrap();
    let p2 = c.my_games(ALICE, 2).unwrap();
    let p3 = c.my_games(ALICE, 3).unwrap();
    assert_eq!(p1.len(), 100);
    assert_eq!(p2.len(), 50);
    assert_eq!(p3.len(), 0);
    assert_eq!(p1[0].game_raffle, vec![0]);
    assert_eq!(p2[0].game_raffle, vec![200]);
    assert!(p1.iter().chain(p2.iter()).all(|t| t.owner == ALICE));
}

#[test]
fn all_raffle_filters_by_id() {
    let c = contract(vec![raffle(1, 10, 0, false), raffle(2, 20, 0, false), raffle(1, 30, 0, false)], vec![]);
    let r = c.all_raffle(1, 1).unwrap();
    assert_eq!(r.len(), 2);
    assert_eq!(r[1].date_raffle, 30);
    assert_eq!(c.all_raffle(1, 2).unwrap().len(), 0);
}

#[test]
fn winner_raffle_filters_by_id() {
    let mut c = contract(vec![], vec![]);
    c.data.winners = vec![ticket(1, ALICE, vec![1]), ticket(2, BOB, vec![2]), ticket(1, BOB, vec![3])];
    let w = c.winner_raffle(1).unwrap();
    assert_eq!(w.len(), 2);
    assert_eq!(w[1].game_raffle, vec![3]);
}

#[test]
fn lunes_payment_rules() {
    let mut c = contract(vec![], vec![]);
    let mut first = ticket(1, ALICE, vec![1]);
    first.value_award = 11;
    let mut second = ticket(2, ALICE, vec![2]);
    second.value_award = 22;
    second.status = true;
    c.data.winners = vec![ticket(1, BOB, vec![9]), first, second];
    assert_eq!(c.payment(BOB), Err(LunesError::WithdrawalFailed));
    // the first prize of the caller still to be collected is the one paid
    assert_eq!(c.payment(ALICE), Ok(Transfer { to: ALICE, amount: 22 }));
    assert!(!c.data.winners[2].status);
    // and it is paid once
    assert_eq!(c.payment(ALICE), Err(LunesError::WithdrawalFailed));
}

#[test]
fn seed_hashes_last_buyer() {
    let c = contract(vec![raffle(1, 10, 0, true)], vec![ticket(1, [0u8; 32], vec![1])]);
    // Keccak-256 of 32 zero bytes begins 29 0d ec d9 54 8b 62 a8
    assert_eq!(c.seed(0, 0), 0x290decd9548b62a8);
    assert_eq!(c.seed(5, 3), 0x290decd9548b62a8 ^ 5 ^ 3);
    let r = c.random(0, 0);
    assert!(1 <= r && r <= 60);
    assert_eq!(r, lotto_lunes::common::number_from_seed(0x290decd9548b62a8));
}

#[test]
fn roles_are_one_number_and_draw_completes() {
    let c = contract(vec![raffle(1, 10, 0, true)], vec![ticket(1, ALICE, vec![1])]);
    let roles = c.roles_linear(1_700_000_000_000, 77);
    let r = c.random(1_700_000_000_000, 77);
    assert_eq!(roles, vec![r, r, r, r]);
    let v = c.linear_random_generator(1_700_000_000_000, 77);
    assert_eq!(v.len(), 6);
    assert!(v.iter().all(|x| 1 <= *x && *x <= 60));
    assert!((0..6).all(|i| (0..6).all(|j| i == j || v[i] != v[j])));
    assert_eq!(v, c.linear_random_generator(1_700_000_000_000, 77));
}

#[test]
fn linear_draw_exact() {
    let c = contract(vec![raffle(1, 10, 0, true)], vec![ticket(1, [0u8; 32], vec![1])]);
    assert_eq!(c.random(0, 0), 30);
    // seeds 930, 27930, ... (times 30 plus 30); the first takes position 930 mod 60 = 30, i.e. 31
    assert_eq!(c.linear_random_generator(0, 0), vec![31, 24, 5, 20, 47, 23]);
}

#[test]
fn do_raffle_before_date_and_after() {
    let mut c = contract(vec![raffle(1, 1000, 500, true), raffle(2, 2000, 0, false)], vec![ticket(1, ALICE, vec![1, 2, 3, 4, 5, 6])]);
    assert_eq!(c.do_raffle_lotto(999, 1), Some(Err(LunesError::DrawNotStarted)));
    assert!(c.data.rafflies[0].status);
    assert_eq!(c.do_raffle_lotto(1000, 1), Some(Ok(())));
    assert!(!c.data.rafflies[0].status);
    assert_eq!(c.data.rafflies[0].num_raffle.len(), 6);
    assert!(c.data.rafflies[1].status);
    let paid: u128 = c.data.winners.iter().map(|t| t.value_award).sum();
    // one ticket at most wins its whole class share; every other share rolls over
    assert_eq!(paid + c.data.rafflies[1].total_accumulated, 500);
    assert!(c.data.winners.iter().all(|t| t.status && t.owner == ALICE));
}

#[test]
fn award_draw_shares_pot_and_opens_next() {
    let mut c = contract(vec![raffle(7, 50, 0, false), raffle(1, 100, 1000, true), raffle(2, 200, 0, false)], five_class_tickets());
    assert_eq!(c.award_draw(1, vec![1, 2, 3, 4, 5, 6]), Some(()));
    let w: Vec<(u64, u128)> = c.data.winners.iter().map(|t| (t.game_raffle[5], t.value_award)).collect();
    // 2%: 20 over two tickets, 5%: 50, 10%: 100, 25%: 250, rest: 580
    assert_eq!(w, vec![(43, 10), (44, 10), (43, 50), (43, 100), (43, 250), (6, 580)]);
    assert!(c.data.winners.iter().all(|t| t.status));
    assert!(!c.data.rafflies[1].status);
    assert_eq!(c.data.rafflies[1].num_raffle, vec![1, 2, 3, 4, 5, 6]);
    assert!(c.data.rafflies[2].status);
    assert_eq!(c.data.rafflies[2].total_accumulated, 0);
    assert_eq!(c.data.rafflies.len(), 3);
    assert_eq!(c.data.next_id, 10);
    // a winner collects the prize
    assert_eq!(c.payment(ALICE), Ok(Transfer { to: ALICE, amount: 10 }));
}

#[test]
fn award_draw_adds_raffle_when_first_is_later() {
    let mut c = contract(vec![raffle(1, 100, 1000, true)], five_class_tickets());
    c.data.rafflies.insert(0, raffle(3, 300, 0, false));
    assert_eq!(c.award_draw(1, vec![1, 2, 3, 4, 5, 6]), Some(()));
    assert_eq!(c.data.rafflies.len(), 3);
    let added = &c.data.rafflies[2];
    assert_eq!(added.raffle_id, 10);
    assert_eq!(added.date_raffle, 100 + RAFFLE_INTERVAL);
    assert_eq!(RAFFLE_INTERVAL, 6 * 24 * 60 * 60 * 1000);
    assert_eq!(added.total_accumulated, 0);
    assert!(added.status);
    assert!(!c.data.rafflies[0].status);
    assert_eq!(c.data.next_id, 11);
}

#[test]
fn award_draw_rolls_empty_class_over() {
    let mut c = contract(vec![raffle(1, 100, 1000, true), raffle(2, 200, 40, false)], five_class_tickets());
    // no ticket holds all six: the six-hit share (580) rolls over
    assert_eq!(c.award_draw(0, vec![1, 2, 3, 4, 5, 7]), Some(()));
    let w: Vec<u128> = c.data.winners.iter().map(|t| t.value_award).collect();
    assert_eq!(w, vec![10, 10, 50, 100, 125, 125]);
    assert_eq!(c.data.rafflies[1].total_accumulated, 40 + 580);
    assert!(c.data.rafflies[1].status);
}

#[test]
fn award_draw_refuses_without_later_raffle() {
    let mut d = contract(vec![raffle(1, 100, 1000, true)], five_class_tickets());
    assert_eq!(d.award_draw(0, vec![1, 2, 3, 4, 5, 6]), None);
    assert_eq!(d.data.rafflies.len(), 1);
    assert!(d.data.rafflies[0].status);
    assert!(d.data.winners.is_empty());
}

#[test]
fn award_draw_stays_within_pot() {
    let mut c = contract(vec![raffle(1, 100, 999, true), raffle(2, 200, 0, false)], five_class_tickets());
    assert_eq!(c.award_draw(0, vec![1, 2, 3, 4, 5, 6]), Some(()));
    let paid: u128 = c.data.winners.iter().map(|t| t.value_award).sum();
    // 2% = 19 over two tickets gives 9 each; 5% = 49; 10% = 99; 25% = 249; rest 999 - 416 = 583
    assert_eq!(paid, 9 + 9 + 49 + 99 + 249 + 583);
    assert!(paid <= 999);
}

fn five_class_tickets() -> Vec<LunesTicket> {
    vec![
        ticket(1, ALICE, vec![1, 2, 40, 41, 42, 43]),
        ticket(1, BOB, vec![1, 2, 3, 41, 42, 43]),
        ticket(1, ALICE, vec![1, 2, 3, 4, 42, 43]),
        ticket(1, BOB, vec![1, 2, 3, 4, 5, 43]),
        ticket(1, ALICE, vec![1, 2, 3, 4, 5, 6]),
        ticket(1, BOB, vec![1, 2, 40, 41, 42, 44]),
        ticket(2, BOB, vec![1, 2, 3, 4, 5, 6]),
        ticket(1, BOB, vec![40, 41, 42, 43, 44, 45]),
    ]
}
