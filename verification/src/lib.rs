//! Verified core of the Lotto Lunes lotteries: the state machines of the two
//! lottery contracts, their ticket checks, draws, prize rules and queries.

pub mod common;
pub mod table;
pub mod lotto_lunes;
pub mod lunes_lotto;
