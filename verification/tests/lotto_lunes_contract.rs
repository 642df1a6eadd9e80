use lotto_lunes::common::{OwnerError, Transfer};
use lotto_lunes::table::Table;
use lotto_lunes::lotto_lunes::{
    InfoContract, ListNumRaffle, LottoLunesContract, LottoWin, LunesError,
};

const OWNER: [u8; 32] = [7u8; 32];
const ALICE: [u8; 32] = [1u8; 32];
const BOB: [u8; 32] = [2u8; 32];

fn ticket(n: [u64; 6]) -> ListNumRaffle {
    ListNumRaffle {
        num_1: n[0],
        num_2: n[1],
        num_3: n[2],
        num_4: n[3],
        num_5: n[4],
        num_6: n[5],
        is_payment: false,
        value_award: 0,
    }
}

fn owned(date: u64, price: u128, fee: u64) -> LottoLunesContract {
    LottoLunesContract::new(OWNER, date, price, fee)
}

fn prizes(raffle_id: u64) -> LottoWin {
    LottoWin {
        date_create: 5,
        raffle_id,
        value_award_2: 10,
        quantity_2: 1,
        value_award_3: 30,
        quantity_3: 1,
        value_award_4: 100,
        quantity_4: 0,
        value_award_5: 500,
        quantity_5: 0,
        value_award_6: 9000,
        quantity_6: 1,
        fee_lunes: 77,
        total_accumulated: 10000,
        total_accumulated_next: 1234,
    }
}

#[test]
fn new_starts_open_with_deployer_as_owner() {
    let c = LottoLunesContract::new(OWNER, 1000, 50, 10);
    assert_eq!(c.owner, Some(OWNER));
    assert_eq!(c.payable_lotto.next_id, 1);
    assert!(c.payable_lotto.status);
    assert_eq!(c.payable_lotto.price, 50);
    assert_eq!(c.payable_lotto.tx_lunes, 10);
    assert_eq!(c.payable_lotto.date_raffle, 1000);
    assert_eq!(c.payable_lotto.total_accumulated, 0);
    assert!(c.payable_lotto.account_do_lotto.is_empty());
}

#[test]
fn error_names() {
    assert_eq!(LunesError::BadMintValue.as_str(), "BadMintValue");
    assert_eq!(LunesError::NumSuper60.as_str(), "NumSuper60");
    assert_eq!(LunesError::NotAuthorized.as_str(), "NotAuthorized");
    assert_eq!(LunesError::DrawNotFinish.as_str(), "DrawNotFinish");
    assert_eq!(LunesError::PaymentExpired.as_str(), "PaymentExpired");
}

#[test]
fn check_amount_accepts_valid_purchase_with_fee() {
    let c = owned(1000, 100, 10);
    let tickets = vec![ticket([1, 2, 3, 4, 5, 6]), ticket([60, 59, 58, 57, 56, 55])];
    // two tickets at 100 plus 10% fee: 220
    assert_eq!(c.payable_lotto.check_amount(220, &tickets), Ok(()));
    assert_eq!(c.payable_lotto.check_amount(219, &tickets), Err(LunesError::BadMintValue));
}

#[test]
fn check_amount_fee_rounds_down() {
    let c = owned(1000, 7, 15);
    let tickets = vec![ticket([1, 2, 3, 4, 5, 6])];
    // 7 + 7 * 15 / 100 = 7 + 1 = 8
    assert_eq!(c.payable_lotto.check_amount(8, &tickets), Ok(()));
    assert_eq!(c.payable_lotto.check_amount(7, &tickets), Err(LunesError::BadMintValue));
}

#[test]
fn check_amount_reports_ticket_faults_in_order() {
    let c = owned(1000, 1, 0);
    let repeat = ticket([1, 2, 3, 4, 5, 5]);
    let zero = ticket([0, 2, 3, 4, 5, 6]);
    let big = ticket([61, 2, 3, 4, 5, 6]);
    let good = ticket([1, 2, 3, 4, 5, 6]);
    assert_eq!(c.payable_lotto.check_amount(10, &vec![good, repeat]), Err(LunesError::NumRepeating));
    assert_eq!(c.payable_lotto.check_amount(10, &vec![good, zero, repeat]), Err(LunesError::NumInvalid));
    assert_eq!(c.payable_lotto.check_amount(10, &vec![big, zero]), Err(LunesError::NumSuper60));
    // a repeated zero is reported as a repetition
    assert_eq!(c.payable_lotto.check_amount(10, &vec![ticket([0, 0, 3, 4, 5, 6])]), Err(LunesError::NumRepeating));
}

#[test]
fn check_amount_refuses_when_closed() {
    let mut c = owned(1000, 1, 0);
    c.payable_lotto.status = false;
    assert_eq!(c.payable_lotto.check_amount(10, &vec![ticket([1, 2, 3, 4, 5, 6])]), Err(LunesError::RaffleNotActive));
}

#[test]
fn play_lunes_sends_all_above_price_to_owner() {
    let mut c = owned(1000, 100, 10);
    let r = c.play_lunes(ALICE, 250, vec![ticket([1, 2, 3, 4, 5, 6]), ticket([7, 8, 9, 10, 11, 12])]);
    assert_eq!(r, Ok(Transfer { to: OWNER, amount: 50 }));
    let games = c.my_play_per_raffle(ALICE, 1).unwrap();
    assert_eq!(games.len(), 2);
    // a later purchase goes before the earlier tickets
    let r2 = c.play_lunes(ALICE, 110, vec![ticket([13, 14, 15, 16, 17, 18])]);
    assert_eq!(r2, Ok(Transfer { to: OWNER, amount: 10 }));
    let games = c.my_play_per_raffle(ALICE, 1).unwrap();
    assert_eq!(games.len(), 3);
    assert_eq!(games[0].num_1, 13);
    assert_eq!(games[1].num_1, 1);
    assert_eq!(games[2].num_1, 7);
}

#[test]
fn play_lunes_refusal_changes_nothing() {
    let mut c = owned(1000, 100, 10);
    let r = c.play_lunes(ALICE, 50, vec![ticket([1, 2, 3, 4, 5, 6])]);
    assert_eq!(r, Err(LunesError::BadMintValue));
    assert!(!c.payable_lotto.players.contains_key(&(ALICE, 1)));
}

#[test]
fn create_raffle_lotto_rules() {
    let mut c = owned(1000, 100, 10);
    assert_eq!(c.create_raffle_lotto(ALICE, 10, 0, 2000, 5), Err(LunesError::DrawNotFinish));
    c.payable_lotto.status = false;
    assert_eq!(c.create_raffle_lotto(ALICE, 3000, 0, 2000, 5), Err(LunesError::NumInvalid));
    assert_eq!(c.create_raffle_lotto(ALICE, 10, 0, 2000, 5), Err(LunesError::NotAuthorized));
    assert_eq!(c.add_account_lotto(OWNER, ALICE), Ok(()));
    assert_eq!(c.create_raffle_lotto(ALICE, 10, 40, 2000, 5), Ok(()));
    assert_eq!(c.payable_lotto.next_id, 2);
    assert!(c.payable_lotto.status);
    assert_eq!(c.payable_lotto.price, 5);
    assert_eq!(c.payable_lotto.total_accumulated, 40);
    // the raffle takes the date given
    assert_eq!(c.payable_lotto.date_raffle, 2000);
}

#[test]
fn add_accumulated_grows_pot() {
    let mut c = owned(1000, 100, 10);
    assert_eq!(c.add_accumulated(25), Ok(()));
    assert_eq!(c.add_accumulated(5), Ok(()));
    assert_eq!(c.payable_lotto.total_accumulated, 30);
}

#[test]
fn owner_only_operations_refused_without_owner() {
    let mut c = LottoLunesContract::new(OWNER, 1000, 100, 10);
    c.owner = None;
    assert_eq!(c.change_tx(ALICE, 3), Err(OwnerError::CallerIsNotOwner));
    assert_eq!(c.add_account_lotto(ALICE, BOB), Err(OwnerError::CallerIsNotOwner));
    assert_eq!(c.random_lotto(ALICE, 1_700_000_000_000, 10), Err(OwnerError::CallerIsNotOwner));
    assert_eq!(c.payable_lotto.tx_lunes, 10);
}

#[test]
fn owner_changes_fee() {
    let mut c = owned(1000, 100, 10);
    assert_eq!(c.change_tx(BOB, 3), Err(OwnerError::CallerIsNotOwner));
    assert_eq!(c.change_tx(OWNER, 3), Ok(()));
    assert_eq!(c.payable_lotto.tx_lunes, 3);
}

#[test]
fn info_contract_reports_state() {
    let c = owned(1000, 100, 10);
    assert_eq!(
        c.info_contract(),
        Ok(InfoContract { tx_lunes: 10, date_raffle: 1000, status: true, raffle_id: 1, total_accumulated: 0 })
    );
}

fn is_valid_draw(v: &Vec<u64>) -> bool {
    v.len() == 6
        && v.iter().all(|x| 1 <= *x && *x <= 60)
        && (0..6).all(|i| (0..6).all(|j| i == j || v[i] != v[j]))
}

#[test]
fn random_draws_six_distinct_numbers() {
    let c = owned(1000, 100, 10);
    for (now, block) in [(1_700_000_000_000u64, 123456u32), (42, 7), (999_999, u32::MAX), (12345678, 1000)] {
        let v = c.random(now, block).unwrap();
        assert!(is_valid_draw(&v), "{:?}", v);
    }
    // the draw is a function of the block time and number
    assert_eq!(c.random(42, 7), c.random(42, 7));
}

#[test]
fn random_exact_draws() {
    let c = owned(1000, 100, 10);
    assert_eq!(c.seed(1, 2, 1), 1);
    // scrambling 1: 1 ^ 1<<13 = 8193; ^ >>7 (64) = 8257; ^ <<17 = 1082269761
    assert_eq!(lotto_lunes::common::number_from_seed(1), 1082269761 % 60 + 1);
    assert_eq!(c.random(1_700_000_000_000, 123456), Some(vec![41, 50, 40, 56, 53, 30]));
    assert_eq!(c.random(42, 7), Some(vec![42, 58, 46, 27, 8, 23]));
    assert_eq!(c.random(1000, 1), Some(vec![38, 47, 28, 16, 23, 18]));
}

#[test]
fn random_overflow_gives_none() {
    let c = owned(1000, 100, 10);
    assert_eq!(c.random(u64::MAX, 0), None);
    assert_eq!(c.random(u64::MAX / 2 + 1, 0), None);
}

#[test]
fn owner_random_lotto() {
    let c = owned(1000, 100, 10);
    let v = c.random_lotto(OWNER, 1000, 1).unwrap();
    assert!(is_valid_draw(&v));
    assert_eq!(v, vec![38, 47, 28, 16, 23, 18]);
}

#[test]
fn do_raffle_lotto_rules() {
    let mut c = owned(1000, 100, 10);
    assert_eq!(c.do_raffle_lotto(999, 1), Err(LunesError::DrawNotStarted));
    let v = c.do_raffle_lotto(1000, 1).unwrap();
    assert!(is_valid_draw(&v));
    assert!(!c.payable_lotto.status);
    let rec = c.draw_num_raffle(1).unwrap();
    assert_eq!(rec.len(), 1);
    assert!(rec[0].is_payment);
    assert_eq!(rec[0].value_award, 0);
    assert_eq!(vec![rec[0].num_1, rec[0].num_2, rec[0].num_3, rec[0].num_4, rec[0].num_5, rec[0].num_6], v);
    assert_eq!(c.do_raffle_lotto(2000, 1), Err(LunesError::DrawNotStarted));
}

#[test]
fn pre_payment_lotto_rules() {
    let mut c = owned(1000, 100, 10);
    assert_eq!(c.pre_payment_lotto(ALICE, prizes(1)), Err(LunesError::NotAuthorized));
    c.add_account_lotto(OWNER, ALICE).unwrap();
    assert_eq!(c.pre_payment_lotto(ALICE, prizes(0)), Err(LunesError::NotAuthorized));
    assert_eq!(c.pre_payment_lotto(ALICE, prizes(1)), Ok(Transfer { to: OWNER, amount: 77 }));
    assert_eq!(c.payable_lotto.total_accumulated, 1234);
    assert_eq!(c.payable_lotto.winners.get(&1), Some(vec![prizes(1)]));
}

fn drawn_contract() -> LottoLunesContract {
    let mut c = owned(0, 1, 0);
    c.payable_lotto.num_raffle.insert(
        1,
        vec![ListNumRaffle { is_payment: true, ..ticket([1, 2, 3, 4, 5, 6]) }],
    );
    let mut paid = ticket([1, 2, 3, 4, 5, 6]);
    paid.is_payment = true;
    c.payable_lotto.players.insert(
        (ALICE, 1),
        vec![
            ticket([1, 2, 10, 11, 12, 13]), // two hits
            ticket([1, 2, 3, 11, 12, 13]),  // three hits
            paid,                           // paid before
            ticket([1, 10, 11, 12, 13, 14]), // one hit
            ticket([6, 5, 4, 3, 2, 1]),     // six hits
        ],
    );
    c.payable_lotto.winners.insert(1, vec![prizes(1)]);
    c
}

#[test]
fn payment_requires_prizes() {
    let mut c = drawn_contract();
    assert_eq!(c.payment(ALICE, 2), Some(Err(LunesError::DrawNotStarted)));
    // prizes recorded but no tickets of this player: the contract stops
    assert_eq!(c.payment(BOB, 1), None);
}

#[test]
fn payment_pays_sum_of_awards_to_owner() {
    let mut c = drawn_contract();
    assert_eq!(c.payment(ALICE, 1), Some(Ok(Some(Transfer { to: ALICE, amount: 10 + 30 + 9000 }))));
    let games = c.my_play_per_raffle(ALICE, 1).unwrap();
    // the ticket paid before is dropped
    assert_eq!(games.len(), 4);
    assert!(games[0].is_payment && games[0].value_award == 10);
    assert!(games[1].is_payment && games[1].value_award == 30);
    assert!(!games[2].is_payment && games[2].value_award == 0);
    assert!(games[3].is_payment && games[3].value_award == 9000);
}

#[test]
fn payment_twice_pays_once() {
    let mut c = drawn_contract();
    assert!(matches!(c.payment(ALICE, 1), Some(Ok(Some(_)))));
    assert_eq!(c.payment(ALICE, 1), Some(Ok(None)));
    assert_eq!(c.my_play_per_raffle(ALICE, 1).unwrap().len(), 4);
}

#[test]
fn payment_without_wins_changes_nothing() {
    let mut c = drawn_contract();
    c.payable_lotto.players.insert((BOB, 1), vec![ticket([10, 11, 12, 13, 14, 15])]);
    assert_eq!(c.payment(BOB, 1), Some(Ok(None)));
    assert_eq!(c.my_play_per_raffle(BOB, 1).unwrap().len(), 1);
}

#[test]
fn payment_goes_to_the_winner_even_without_owner() {
    let mut c = drawn_contract();
    c.owner = None;
    assert_eq!(c.payment(ALICE, 1), Some(Ok(Some(Transfer { to: ALICE, amount: 9040 }))));
    assert_eq!(c.my_play_per_raffle(ALICE, 1).unwrap().len(), 4);
}

#[test]
fn add_accumulated_keeps_prizes() {
    let mut c = drawn_contract();
    assert_eq!(c.add_accumulated(5), Ok(()));
    assert_eq!(c.payable_lotto.winners.get(&1), Some(vec![prizes(1)]));
}

#[test]
fn table_get_after_insert() {
    let mut t: Table<u64, u64> = Table::new();
    assert_eq!(t.get(&3), None);
    t.insert(3, vec![1, 2]);
    t.insert(4, vec![5]);
    t.insert(3, vec![9]);
    assert_eq!(t.get(&3), Some(vec![9]));
    assert_eq!(t.get(&4), Some(vec![5]));
    assert!(t.contains_key(&4));
    assert!(!t.contains_key(&5));
    assert_eq!(t.entries.len(), 2);
}

#[test]
fn raffle_cycle_alternates() {
    let mut c = owned(1000, 100, 0);
    c.add_account_lotto(OWNER, ALICE).unwrap();
    // an open raffle cannot be opened again
    assert_eq!(c.create_raffle_lotto(ALICE, 10, 0, 5000, 100), Err(LunesError::DrawNotFinish));
    assert!(c.do_raffle_lotto(1000, 1).is_ok());
    // a drawn raffle cannot be drawn again
    assert_eq!(c.do_raffle_lotto(1000, 1), Err(LunesError::DrawNotStarted));
    assert_eq!(c.create_raffle_lotto(ALICE, 10, 0, 5000, 100), Ok(()));
    assert_eq!(c.payable_lotto.next_id, 2);
    let _ = BOB;
}
