//! Plain request and response records of the HTTP layer whose content
//! the core computes or validates; the routes themselves live outside
//! the library.

use vstd::prelude::*;

verus! {

use crate::models::Kart;

/// A pagination window of a search query.
#[derive(Clone, Copy, PartialEq, Eq, Structural, Debug)]
pub struct Paginated {
    pub limit: u32,
    pub page: u32,
}

impl Paginated {
    /// How many rows the window skips.
    pub fn offset(&self) -> (r: u64)
        ensures
            r == (self.page as int) * (self.limit as int),
    {
        proof {
            assert((self.page as int) * (self.limit as int) < 0x10000000000000000)
                by (nonlinear_arith)
                requires
                    0 <= (self.page as int) < 0x100000000,
                    0 <= (self.limit as int) < 0x100000000,
            ;
        }
        (self.page as u64) * (self.limit as u64)
    }
}

/// The form payload naming a heat.
#[derive(Clone, Debug)]
pub struct NewHeatFormData {
    pub heat_id: String,
}

/// A kart as served by the API: an unknown child-kart flag is reported
/// as an adult kart.
#[derive(Clone, Copy, PartialEq, Eq, Structural, Debug)]
pub struct ApiKart {
    pub number: i32,
    pub is_child_kart: bool,
}

impl ApiKart {
    pub fn new(kart: &Kart) -> (r: ApiKart)
        ensures
            r.number == kart.number,
            r.is_child_kart == match kart.is_child_kart {
                Option::Some(b) => b,
                Option::None => false,
            },
    {
        let is_child = match kart.is_child_kart {
            Option::Some(b) => b,
            Option::None => false,
        };
        ApiKart { number: kart.number, is_child_kart: is_child }
    }
}

} // verus!
