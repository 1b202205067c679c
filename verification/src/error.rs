use vstd::prelude::*;

verus! {

/// Why the engine refused a request.
#[derive(Clone, Copy, Debug, PartialEq, Eq, Structural)]
pub enum OrderError {
    ZeroQuantity,
    PriceOutOfRange,
    DuplicateOrderId,
    OrderNotFound,
    AssetNotFound,
}

/// The wire code of a reason.
pub open spec fn error_code(e: OrderError) -> u8 {
    match e {
        OrderError::ZeroQuantity => 0,
        OrderError::PriceOutOfRange => 1,
        OrderError::DuplicateOrderId => 2,
        OrderError::OrderNotFound => 3,
        OrderError::AssetNotFound => 4,
    }
}

impl<'a> From<&'a OrderError> for u8 {
    fn from(val: &'a OrderError) -> (r: u8) {
        match val {
            OrderError::ZeroQuantity => 0,
            OrderError::PriceOutOfRange => 1,
            OrderError::DuplicateOrderId => 2,
            OrderError::OrderNotFound => 3,
            OrderError::AssetNotFound => 4,
        }
    }
}

impl<'a> vstd::std_specs::convert::FromSpecImpl<&'a OrderError> for u8 {
    open spec fn obeys_from_spec() -> bool {
        true
    }

    open spec fn from_spec(v: &'a OrderError) -> u8 {
        error_code(*v)
    }
}

} // verus!
