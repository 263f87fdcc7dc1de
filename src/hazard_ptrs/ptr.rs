//! One hazard pointer: a slot that protects the node it points at.
use vstd::prelude::*;

verus! {

/// A slot holding a protected data pointer; 0 means it protects nothing.
pub struct HazardPtr {
    ptr: usize,
}

impl View for HazardPtr {
    type V = usize;

    closed spec fn view(&self) -> usize {
        self.ptr
    }
}

impl HazardPtr {
    pub fn new(data: usize) -> (r: Self)
        ensures
            r@ == data,
    {
        Self { ptr: data }
    }

    /// The raw slot value.
    pub fn load(&self) -> (r: usize)
        ensures
            r == self@,
    {
        self.ptr
    }

    /// The protected pointer, unless the slot is empty.
    pub fn ptr(&self) -> (r: Option<usize>)
        ensures
            r == if self@ == 0 { None } else { Some(self@) },
    {
        if self.ptr == 0 {
            None
        } else {
            Some(self.ptr)
        }
    }

    /// Stores `data` if the slot is empty; else hands `data` back.
    pub fn store(&mut self, data: usize) -> (r: Result<(), usize>)
        ensures
            r is Ok <==> old(self)@ == 0,
            r is Ok ==> final(self)@ == data,
            r is Err ==> r == Err::<(), usize>(data) && final(self)@ == old(self)@,
    {
        if self.ptr == 0 {
            self.ptr = data;
            Ok(())
        } else {
            Err(data)
        }
    }

    /// Empties the slot.
    pub fn reset(&mut self)
        ensures
            final(self)@ == 0,
    {
        self.ptr = 0;
    }
}

} // verus!
