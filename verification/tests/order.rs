use limitbook::{BookError, Num, Order, OrderSide, OrderType};

#[test]
fn test_order_new_validates_quantity() {
    let order = Order::new(7, Num::from_int(3), OrderType::Limit, OrderSide::Sell)
        .expect("invalid order");
    assert_eq!(order.id, 7);
    assert_eq!(order.quantity, Num::from_int(3));
    assert_eq!(order.order_type, OrderType::Limit);
    assert_eq!(order.order_side, OrderSide::Sell);

    assert_eq!(
        Order::new(8, Num::from_int(0), OrderType::Limit, OrderSide::Buy).unwrap_err(),
        BookError::InvalidQuantity
    );
    assert_eq!(
        Order::new(9, Num::from_int(-2), OrderType::Market, OrderSide::Buy).unwrap_err(),
        BookError::InvalidQuantity
    );
}
