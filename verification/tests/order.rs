use tradingsim::order::{OrderState, Side};
use tradingsim::trade::TradeState;

#[test]
fn side_opposite_round_trips() {
    assert_eq!(Side::Buy.opposite(), Side::Sell);
    assert_eq!(Side::Sell.opposite(), Side::Buy);
    assert_eq!(Side::Buy.opposite().opposite(), Side::Buy);
}

#[test]
fn terminal_states_match_proto_meaning() {
    for s in [
        OrderState::Filled,
        OrderState::Canceled,
        OrderState::Expired,
        OrderState::Failed,
    ] {
        assert!(s.is_terminal(), "{s:?} should be terminal");
    }
    for s in [
        OrderState::Pending,
        OrderState::Active,
        OrderState::Hibernate,
    ] {
        assert!(!s.is_terminal(), "{s:?} should NOT be terminal");
    }
}

#[test]
fn terminal_trade_states() {
    for s in [TradeState::Canceled, TradeState::Recalled] {
        assert!(s.is_terminal(), "{s:?} should be terminal");
    }
    for s in [
        TradeState::Active,
        TradeState::CancelRequested,
        TradeState::CancelRejected,
        TradeState::RecallRequested,
        TradeState::RecallRejected,
        TradeState::ApprovalRequested,
    ] {
        assert!(!s.is_terminal(), "{s:?} should NOT be terminal");
    }
}
