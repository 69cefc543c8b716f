//! The 12-valued classifier of the most recent literal/match events.
//!
//! The state selects rows of the `is_match`, `is_rep*` and `is_rep0_long`
//! probability tables. Each transition is a total function of the previous
//! state alone.

use vstd::prelude::*;

verus! {

/// Number of distinct coder states.
pub const STATES: usize = 12;

/// The LZMA coder state: a small integer in `0 .. STATES`.
///
/// States `0..7` mean the previous event was a literal; `7..12` classify the
/// kind of the preceding match.
#[derive(Clone, Copy, Debug)]
pub struct State {
    value: u8,
}

impl State {
    /// Which state this is, as a plain integer.
    pub closed spec fn view(self) -> int {
        self.value as int
    }

    /// A state is valid when it lies below [`STATES`].
    pub open spec fn wf(self) -> bool {
        0 <= self@ < 12
    }

    /// The state a freshly reset coder starts in.
    pub fn new() -> (s: State)
        ensures
            s@ == 0,
            s.wf(),
    {
        State { value: 0 }
    }

    /// Return to the initial state.
    pub fn reset(&mut self)
        ensures
            final(self)@ == 0,
            final(self).wf(),
    {
        self.value = 0;
    }

    /// The state as an index into the probability tables.
    pub fn get(&self) -> (v: usize)
        requires
            self.wf(),
        ensures
            v == self@,
            v < 12,
    {
        self.value as usize
    }

    /// True exactly when the last event was a literal.
    pub open spec fn spec_is_literal(self) -> bool {
        self@ < 7
    }

    /// True exactly when the last event was a literal.
    pub fn is_literal(&self) -> (r: bool)
        requires
            self.wf(),
        ensures
            r == self.spec_is_literal(),
    {
        self.value < 7
    }

    /// Where a literal event leads from state `s`.
    pub open spec fn spec_update_literal(s: int) -> int {
        if s < 4 {
            0
        } else if s < 10 {
            s - 3
        } else {
            s - 6
        }
    }

    /// Record that a literal was decoded.
    pub fn update_literal(&mut self)
        requires
            old(self).wf(),
        ensures
            final(self)@ == State::spec_update_literal(old(self)@),
            final(self).wf(),
            final(self).spec_is_literal(),
    {
        if self.value < 4 {
            self.value = 0;
        } else if self.value < 10 {
            self.value = self.value - 3;
        } else {
            self.value = self.value - 6;
        }
    }

    /// Where a match event leads from state `s`.
    pub open spec fn spec_update_match(s: int) -> int {
        if s < 7 {
            7
        } else {
            10
        }
    }

    /// Record that a match with a fresh distance was decoded.
    pub fn update_match(&mut self)
        requires
            old(self).wf(),
        ensures
            final(self)@ == State::spec_update_match(old(self)@),
            final(self).wf(),
            !final(self).spec_is_literal(),
    {
        self.value = if self.value < 7 {
            7
        } else {
            10
        };
    }

    /// Where a long rep-match event leads from state `s`.
    pub open spec fn spec_update_long_rep(s: int) -> int {
        if s < 7 {
            8
        } else {
            11
        }
    }

    /// Record that a rep-match with an explicit length was decoded.
    pub fn update_long_rep(&mut self)
        requires
            old(self).wf(),
        ensures
            final(self)@ == State::spec_update_long_rep(old(self)@),
            final(self).wf(),
            !final(self).spec_is_literal(),
    {
        self.value = if self.value < 7 {
            8
        } else {
            11
        };
    }

    /// Where a short rep-match event leads from state `s`.
    pub open spec fn spec_update_short_rep(s: int) -> int {
        if s < 7 {
            9
        } else {
            11
        }
    }

    /// Record that a single-byte rep-match was decoded.
    pub fn update_short_rep(&mut self)
        requires
            old(self).wf(),
        ensures
            final(self)@ == State::spec_update_short_rep(old(self)@),
            final(self).wf(),
            !final(self).spec_is_literal(),
    {
        self.value = if self.value < 7 {
            9
        } else {
            11
        };
    }
}

} // verus!
