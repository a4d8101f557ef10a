use vstd::prelude::*;

verus! {

/// A cell that is written at most once: empty until `initialize` gives it its
/// value, or holding one from `new_with`.
pub struct OnceCell<T> {
    value: Option<T>,
}

impl<T> View for OnceCell<T> {
    type V = Option<T>;

    closed spec fn view(&self) -> Option<T> {
        self.value
    }
}

impl<T> OnceCell<T> {
    /// An empty cell.
    pub fn new() -> (r: Self)
        ensures
            r@ == None::<T>,
    {
        OnceCell { value: None }
    }

    /// A cell that already holds `v`.
    pub fn new_with(v: T) -> (r: Self)
        ensures
            r@ == Some(v),
    {
        OnceCell { value: Some(v) }
    }

    /// Whether the cell holds a value.
    pub fn is_initialized(&self) -> (r: bool)
        ensures
            r == self@ is Some,
    {
        self.value.is_some()
    }

    /// Gives an empty cell its value; a cell is initialized only once.
    pub fn initialize(&mut self, v: T)
        requires
            old(self)@ is None,
        ensures
            final(self)@ == Some(v),
    {
        self.value = Some(v);
    }

    /// The value of an initialized cell.
    pub fn get(&self) -> (r: &T)
        requires
            self@ is Some,
        ensures
            *r == self@->0,
    {
        self.value.as_ref().unwrap()
    }
}

} // verus!
