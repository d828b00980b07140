//! Tokens: how a completion finds the operation it belongs to.
use vstd::prelude::*;

use crate::collections::slab::SlabKey;

verus! {

/// The highest slot that a token can name.
pub const SLOT_MASK: u32 = 0x00ff_ffff;

/// The kinds of operations.
pub const ACCEPT: u8 = 1;

pub const CONNECT: u8 = 2;

pub const SOCKET: u8 = 3;

pub const RECV: u8 = 4;

pub const SEND: u8 = 5;

pub const CLOSE: u8 = 6;

pub const SHUTDOWN: u8 = 7;

pub const OPEN: u8 = 8;

pub const READ: u8 = 9;

pub const STAT: u8 = 10;

pub const SPLICE: u8 = 11;

/// Names an operation: the manifold that started it, its kind, and the slot it
/// runs in, in one epoch of that slot.
#[derive(Clone, Copy, PartialEq, Eq, Structural, Debug)]
pub struct Token {
    pub route: u8,
    pub kind: u8,
    pub slot: u32,
    pub epoch: u32,
}

impl Token {
    pub fn route(self) -> (route: u8)
        ensures
            route == self.route,
    {
        self.route
    }

    pub fn slot(self) -> (slot: u32)
        ensures
            slot == self.slot,
    {
        self.slot
    }

    /// Both name the same slot of the same manifold in the same epoch.
    pub open spec fn spec_same_target(self, other: Token) -> bool {
        self.route == other.route && self.slot == other.slot && self.epoch == other.epoch
    }

    pub fn same_target(self, other: Token) -> (same: bool)
        ensures
            same == self.spec_same_target(other),
    {
        self.route == other.route && self.slot == other.slot && self.epoch == other.epoch
    }

    /// The same target, for an operation of another kind.
    pub fn with_kind(self, kind: u8) -> (token: Token)
        ensures
            token == (Token { kind, ..self }),
    {
        Token { route: self.route, kind, slot: self.slot, epoch: self.epoch }
    }

    /// The token of the operation of a kind that runs under a key.
    pub open spec fn spec_of(route: u8, kind: u8, key: SlabKey) -> Token {
        Token { route, kind, slot: key.index, epoch: key.generation }
    }

    pub fn of(route: u8, kind: u8, key: SlabKey) -> (token: Token)
        ensures
            token == Token::spec_of(route, kind, key),
    {
        Token { route, kind, slot: key.index, epoch: key.generation }
    }

    /// The key that the token names, if it is one of this route and kind.
    pub open spec fn spec_parts(self, route: u8, kind: u8) -> Option<SlabKey> {
        if self.route == route && self.kind == kind {
            Some(SlabKey { index: self.slot, generation: self.epoch })
        } else {
            None
        }
    }

    pub fn parts(self, route: u8, kind: u8) -> (key: Option<SlabKey>)
        ensures
            key == self.spec_parts(route, kind),
    {
        if self.route == route && self.kind == kind {
            Some(SlabKey { index: self.slot, generation: self.epoch })
        } else {
            None
        }
    }
}

/// Taking a token apart gives back the key it was made of.
pub proof fn law_parts_of_token(route: u8, kind: u8, key: SlabKey)
    ensures
        Token::spec_of(route, kind, key).spec_parts(route, kind) == Some(key),
{
}
/// A token is taken apart only as what it was made for: of another route, or of
/// another kind, it names nothing, and tokens of different keys are different.
pub proof fn law_token_names_one_operation(token: Token, route: u8, kind: u8, other: SlabKey)
    ensures
        token.spec_parts(route, kind) is Some <==> token.route == route && token.kind == kind,
        token.spec_parts(route, kind) matches Some(key) ==> key.index == token.slot
            && key.generation == token.epoch && Token::spec_of(route, kind, key) == token,
        token.spec_parts(route, kind) matches Some(key) ==> (Token::spec_of(route, kind, other)
            == token <==> other == key),
{
}

/// Two tokens have the same target exactly if they differ at most in their kind.
pub proof fn law_same_target_but_for_the_kind(one: Token, other: Token)
    ensures
        one.spec_same_target(other) <==> one == (Token { kind: one.kind, ..other }),
        one.spec_same_target(other) == other.spec_same_target(one),
{
}


} // verus!
