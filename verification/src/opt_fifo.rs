//! A buffer that holds at most one pending output sequence and yields it one
//! unit at a time.  Armed and unarmed states are kept apart: an armed buffer
//! holding an empty sequence is not the same as an unarmed one.

use vstd::prelude::*;

verus! {

/// Container which can be given a vector and returns its single elements on
/// request.
pub struct OptFifo<T> {
    data: Option<Vec<T>>,
}

impl<T> View for OptFifo<T> {
    type V = Option<Seq<T>>;

    closed spec fn view(&self) -> Option<Seq<T>> {
        match self.data {
            Some(v) => Some(v@),
            None => None,
        }
    }
}

impl<T> OptFifo<T> {
    /// Initializes an empty OptFifo.
    pub fn new() -> (r: Self)
        ensures
            r@ is None,
    {
        Self { data: None }
    }

    /// Installs a new sequence.  Doing so while a previous one is still
    /// undrained is a contract violation, which the precondition rules out.
    pub fn set(&mut self, data: Vec<T>)
        requires
            old(self)@ is None,
        ensures
            final(self)@ == Some(data@),
    {
        self.data = Some(data);
    }

    /// Returns the next unit, or `None` if the buffer is unarmed or its
    /// sequence is used up.  In the latter case the sequence is removed and a
    /// new one may be installed; further calls keep returning `None`.
    pub fn get(&mut self) -> (r: Option<T>)
        ensures
            match old(self)@ {
                None => r is None && final(self)@ is None,
                Some(s) => {
                    if s.len() == 0 {
                        r is None && final(self)@ is None
                    } else {
                        r == Some(s[0]) && final(self)@ == Some(s.drop_first())
                    }
                },
            },
    {
        let mut data: Option<Vec<T>> = None;
        core::mem::swap(&mut data, &mut self.data);
        match data {
            Some(mut v) => {
                if v.len() == 0 {
                    None
                } else {
                    let element = v.remove(0);
                    self.data = Some(v);
                    Some(element)
                }
            },
            None => None,
        }
    }
}

} // verus!
