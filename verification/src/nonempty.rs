use vstd::prelude::*;

verus! {

/// A vector that holds at least one element.
pub struct NonEmptyVec<T: Sized>(Vec<T>);

/// The vector was empty.
#[derive(Clone, Copy, Debug, PartialEq, Eq, Structural)]
pub struct VecEmptyError;

impl<T: Sized> NonEmptyVec<T> {
    /// The elements.
    pub closed spec fn elements(&self) -> Seq<T> {
        self.0@
    }

    /// The vector holds at least one element.
    pub closed spec fn wf(&self) -> bool {
        self.0@.len() > 0
    }

    /// A vector of the single element `element`.
    pub fn one(element: T) -> (r: Self)
        ensures
            r.wf(),
            r.elements() == seq![element],
    {
        let mut v: Vec<T> = Vec::new();
        v.push(element);
        Self(v)
    }

    /// `value` as a non-empty vector, or `VecEmptyError` if it is empty.
    pub fn from_vec(value: Vec<T>) -> (r: Result<Self, VecEmptyError>)
        ensures
            value@.len() == 0 ==> r == Err::<Self, VecEmptyError>(VecEmptyError),
            value@.len() > 0 ==> (r matches Ok(n) && n.wf() && n.elements() == value@),
    {
        if value.len() == 0 {
            return Err(VecEmptyError);
        }
        Ok(Self(value))
    }

    /// The elements as a vector.
    pub fn into_vec(self) -> (r: Vec<T>)
        ensures
            r@ == self.elements(),
    {
        self.0
    }
}

} // verus!
