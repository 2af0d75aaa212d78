use restaurant_api::durable::{mark_canceled, mark_cooked, Status};

#[test]
fn mark_cooked_twice_stays_cooked() {
    let once = mark_cooked(Status::Cooking);
    assert_eq!(once, Status::Cooked);
    let twice = mark_cooked(once);
    assert_eq!(twice, Status::Cooked);
}

#[test]
fn canceled_record_is_not_cooked() {
    let canceled = mark_canceled(Status::Cooking);
    assert_eq!(canceled, Status::Canceled);
    assert_eq!(mark_cooked(canceled), Status::Canceled);
    assert_eq!(mark_canceled(Status::Cooked), Status::Cooked);
}
