//! A demo scenario: something that builds its own state once and is then
//! ticked every frame by the host. Implementations live with the host
//! program; the library only fixes the shape.

use vstd::prelude::*;

verus! {

pub trait Scenario {
    fn init() -> Self where Self: Sized;

    fn tick(&self);
}

} // verus!
