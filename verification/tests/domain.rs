//! Domain types.
use matching_engine::types::{
    NewOrder, OrderCondition, OrderState, OrderType, RejectReason, Side, TimeInForce,
};

#[test]
fn side_opposite() {
    assert_eq!(Side::Buy.opposite(), Side::Sell);
    assert_eq!(Side::Sell.opposite(), Side::Buy);
}

#[test]
fn order_state_open_qty() {
    let state = OrderState {
        order_id: 1,
        symbol: 0,
        side: Side::Buy,
        order_type: OrderType::Limit,
        tif: TimeInForce::GTC,
        condition: OrderCondition::Unconditional,
        price: 100,
        original_qty: 50,
        filled_qty: 20,
        stop_price: 0,
        is_open: true,
    };
    assert_eq!(state.open_qty(), 30);
}

#[test]
fn order_state_open_qty_saturates() {
    let state = OrderState {
        order_id: 1,
        symbol: 0,
        side: Side::Buy,
        order_type: OrderType::Limit,
        tif: TimeInForce::GTC,
        condition: OrderCondition::Unconditional,
        price: 100,
        original_qty: 10,
        filled_qty: 15, // should not happen, but must not panic
        stop_price: 0,
        is_open: true,
    };
    assert_eq!(state.open_qty(), 0);
}

#[test]
fn a_new_order_enters_unfilled_and_not_open() {
    let order = NewOrder {
        order_id: 7,
        symbol: 3,
        side: Side::Sell,
        order_type: OrderType::Limit,
        tif: TimeInForce::IOC,
        condition: OrderCondition::AON,
        price: 12,
        qty: 34,
        stop_price: 56,
    };
    let state = OrderState::from_new_order(&order);
    assert_eq!(state.order_id, 7);
    assert_eq!(state.symbol, 3);
    assert_eq!(state.side, Side::Sell);
    assert_eq!(state.order_type, OrderType::Limit);
    assert_eq!(state.tif, TimeInForce::IOC);
    assert_eq!(state.condition, OrderCondition::AON);
    assert_eq!(state.price, 12);
    assert_eq!(state.original_qty, 34);
    assert_eq!(state.filled_qty, 0);
    assert_eq!(state.stop_price, 56);
    assert!(!state.is_open);
    assert_eq!(state.open_qty(), 34);
}

#[test]
fn display_names() {
    assert_eq!(Side::Buy.name(), "Buy");
    assert_eq!(Side::Sell.name(), "Sell");
    let reasons = [
        RejectReason::UnknownOrder,
        RejectReason::DuplicateOrderId,
        RejectReason::InvalidPrice,
        RejectReason::InvalidQuantity,
        RejectReason::FOKNotFillable,
        RejectReason::AONNotFillable,
        RejectReason::ReplaceQtyIncrease,
        RejectReason::NothingToCancel,
        RejectReason::NoLiquidity,
        RejectReason::UnknownSymbol,
        RejectReason::InternalError,
    ];
    for reason in reasons {
        assert_eq!(reason.name(), format!("{:?}", reason));
    }
}
