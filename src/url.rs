use vstd::prelude::*;

use crate::chars::{is_space, space};

verus! {

/// States of the automaton that recognises a URL: the fixed chain of the
/// scheme `http[s]://`, then `Done`, which loops over the body.
#[derive(Clone, Copy, PartialEq, Eq, Structural, Debug)]
pub enum UrlState {
    Start,
    H,
    HT,
    HTT,
    HTTP,
    HTTPS,
    Colon,
    ColonSlash,
    Done,
}

/// The transition table. `None` means the automaton stops: from `Done` on
/// whitespace (the URL ends there), from any other state on a mismatch.
pub open spec fn url_transition(st: UrlState, c: char) -> Option<UrlState> {
    match st {
        UrlState::Start => if c == 'h' { Some(UrlState::H) } else { None },
        UrlState::H => if c == 't' { Some(UrlState::HT) } else { None },
        UrlState::HT => if c == 't' { Some(UrlState::HTT) } else { None },
        UrlState::HTT => if c == 'p' { Some(UrlState::HTTP) } else { None },
        UrlState::HTTP => if c == 's' {
            Some(UrlState::HTTPS)
        } else if c == ':' {
            Some(UrlState::Colon)
        } else {
            None
        },
        UrlState::HTTPS => if c == ':' { Some(UrlState::Colon) } else { None },
        UrlState::Colon => if c == '/' { Some(UrlState::ColonSlash) } else { None },
        UrlState::ColonSlash => if c == '/' { Some(UrlState::Done) } else { None },
        UrlState::Done => if is_space(c) { None } else { Some(UrlState::Done) },
    }
}

/// Runs the automaton over `s` from position `i` in state `st`. Returns the
/// position where it stopped and whether it stopped in `Done`, which is
/// when the characters from the start of the run form a URL.
pub open spec fn url_run(s: Seq<char>, i: nat, st: UrlState) -> (nat, bool)
    decreases s.len() - i,
{
    if i >= s.len() {
        (i, st == UrlState::Done)
    } else {
        match url_transition(st, s[i as int]) {
            Some(next) => url_run(s, i + 1, next),
            None => (i, st == UrlState::Done),
        }
    }
}

/// A run never moves backwards, and never past the end of the input.
pub proof fn lemma_url_run_bounds(s: Seq<char>, i: nat, st: UrlState)
    ensures
        i <= url_run(s, i, st).0,
        i <= s.len() ==> url_run(s, i, st).0 <= s.len(),
    decreases s.len() - i,
{
    if i < s.len() {
        if let Some(next) = url_transition(st, s[i as int]) {
            lemma_url_run_bounds(s, i + 1, next);
        }
    }
}

/// A run from the start state over a leading `h` consumes at least that `h`.
pub proof fn lemma_url_run_advances(s: Seq<char>, i: nat)
    requires
        i < s.len(),
        s[i as int] == 'h',
    ensures
        i < url_run(s, i, UrlState::Start).0 <= s.len(),
{
    lemma_url_run_bounds(s, i + 1, UrlState::H);
}

/// One step of the automaton.
pub fn url_step(st: UrlState, c: char) -> (r: Option<UrlState>)
    ensures
        r == url_transition(st, c),
{
    match st {
        UrlState::Start => if c == 'h' { Some(UrlState::H) } else { None },
        UrlState::H => if c == 't' { Some(UrlState::HT) } else { None },
        UrlState::HT => if c == 't' { Some(UrlState::HTT) } else { None },
        UrlState::HTT => if c == 'p' { Some(UrlState::HTTP) } else { None },
        UrlState::HTTP => if c == 's' {
            Some(UrlState::HTTPS)
        } else if c == ':' {
            Some(UrlState::Colon)
        } else {
            None
        },
        UrlState::HTTPS => if c == ':' { Some(UrlState::Colon) } else { None },
        UrlState::Colon => if c == '/' { Some(UrlState::ColonSlash) } else { None },
        UrlState::ColonSlash => if c == '/' { Some(UrlState::Done) } else { None },
        UrlState::Done => if space(c) { None } else { Some(UrlState::Done) },
    }
}

} // verus!
