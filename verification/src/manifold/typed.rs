//! Tokens that are known to belong to one manifold.
use vstd::prelude::*;

use crate::token::Token;

verus! {

/// A token whose route is `ID`.
#[derive(Clone, Copy)]
pub struct TypedToken<const ID: u8> {
    token: Token,
}

impl<const ID: u8> TypedToken<ID> {
    pub closed spec fn inner(self) -> Token {
        self.token
    }

    #[verifier::type_invariant]
    spec fn routed(self) -> bool {
        self.token.route == ID
    }

    /// Types a token, if it was issued for this manifold.
    pub fn try_new(token: Token) -> (typed: Option<Self>)
        ensures
            typed is Some <==> token.route == ID,
            typed matches Some(t) ==> t.inner() == token,
    {
        if token.route() == ID {
            Some(TypedToken { token })
        } else {
            None
        }
    }

    /// Types a token that is known to be issued for this manifold.
    pub fn new_unchecked(token: Token) -> (typed: Self)
        requires
            token.route == ID,
        ensures
            typed.inner() == token,
    {
        TypedToken { token }
    }

    /// Hands the token on to another manifold with the same route.
    pub fn retag<const OTHER: u8>(self) -> (typed: TypedToken<OTHER>)
        requires
            OTHER == ID,
        ensures
            typed.inner() == self.inner(),
    {
        proof {
            use_type_invariant(&self);
        }
        TypedToken { token: self.token }
    }

    pub fn into_inner(self) -> (token: Token)
        ensures
            token == self.inner(),
            token.route == ID,
    {
        proof {
            use_type_invariant(&self);
        }
        self.token
    }

    pub fn slot(self) -> (slot: u32)
        ensures
            slot == self.inner().slot,
    {
        self.token.slot()
    }
}

} // verus!
