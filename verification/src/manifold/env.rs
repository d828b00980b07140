//! What a listener or connector is built for.
use std::marker::PhantomData;

use vstd::prelude::*;

verus! {

/// A transport, a wire and a profile, taken together.
pub trait Env {
    type Transport;

    type Wire;

    type Profile;
}

pub struct Bundle<T, W, F>(PhantomData<(T, W, F)>);

impl<T, W, F> Env for Bundle<T, W, F> {
    type Transport = T;

    type Wire = W;

    type Profile = F;
}

} // verus!
