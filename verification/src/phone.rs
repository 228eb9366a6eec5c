use vstd::prelude::*;

verus! {

/// A phone that is either on or off.
pub struct MyiPhone13Pro {
    pub is_on: bool,
}

impl MyiPhone13Pro {
    /// A phone in the given power state.
    pub fn new(is_on: bool) -> (p: MyiPhone13Pro)
        ensures
            p.is_on == is_on,
    {
        MyiPhone13Pro { is_on: is_on }
    }
}

/// Something that can be switched on.
pub trait CanTurnOn {
    fn turnon(&mut self);
}

impl CanTurnOn for MyiPhone13Pro {
    /// Switches the phone on, whatever its state was.
    fn turnon(&mut self)
        ensures
            final(self).is_on,
    {
        self.is_on = true;
    }
}

} // verus!
