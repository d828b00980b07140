//! How received bytes are cut into messages.
use vstd::prelude::*;

use crate::collections::accumulator;

verus! {

pub trait Codec: Sized {
    /// What a message begins with, as far as a session has to know.
    type Head;

    /// What is remembered between two looks at the same bytes.
    type ParseState: Default;

    /// Looking at `bytes` may yield `parsed`: a message and how many bytes it takes
    /// up. Unless a codec says more, it may yield anything.
    open spec fn parses(
        &self,
        state: Self::ParseState,
        bytes: Seq<u8>,
        parsed: Option<(Self::Head, usize)>,
        after: Self::ParseState,
    ) -> bool {
        true
    }

    /// The end of the stream after `bytes` may yield `finished`. Unless a codec says
    /// more, it may yield anything.
    open spec fn finishes(
        &self,
        state: Self::ParseState,
        bytes: Seq<u8>,
        finished: Option<Self::Head>,
        after: Self::ParseState,
    ) -> bool {
        true
    }

    /// Looks for a message at the beginning of `buf`.
    fn parse(&self, state: &mut Self::ParseState, buf: &o3::buffer::Shared) -> (parsed: Option<
        (Self::Head, usize),
    >)
        ensures
            self.parses(
                *old(state),
                accumulator::shared_bytes(*buf),
                parsed,
                *final(state),
            ),
    ;

    /// The stream has ended after `remaining`, which holds no whole message.
    fn finish(
        &self,
        state: &mut Self::ParseState,
        remaining: o3::buffer::Shared,
    ) -> (finished: Option<Self::Head>)
        ensures
            self.finishes(
                *old(state),
                accumulator::shared_bytes(remaining),
                finished,
                *final(state),
            ),
    ;
}

} // verus!
