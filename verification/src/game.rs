//! The racing simulators the telemetry companion recognises, parsed
//! from their identifier strings.

use vstd::prelude::*;

verus! {

use vstd::string::StrSliceExecFns;

/// A supported racing simulator.
#[derive(Clone, Copy, PartialEq, Eq, Structural, Debug)]
pub enum Game {
    Iracing,
    AssettoCorsa,
    AssettoCorsaCompetitione,
}

/// Which simulator an identifier string names, if any.
pub open spec fn spec_game_from_string(s: Seq<char>) -> Option<Game> {
    if s == "iRacing"@ {
        Option::Some(Game::Iracing)
    } else if s == "ac"@ {
        Option::Some(Game::AssettoCorsa)
    } else if s == "acc"@ {
        Option::Some(Game::AssettoCorsaCompetitione)
    } else {
        Option::None
    }
}

impl Game {
    /// Parse a simulator identifier; unknown strings are `None`.
    pub fn from_string(game: &str) -> (r: Option<Game>)
        ensures
            r == spec_game_from_string(game@),
    {
        if str_eq(game, "iRacing") {
            Some(Game::Iracing)
        } else if str_eq(game, "ac") {
            Some(Game::AssettoCorsa)
        } else if str_eq(game, "acc") {
            Some(Game::AssettoCorsaCompetitione)
        } else {
            None
        }
    }
}

/// Character-for-character string equality.
pub fn str_eq(a: &str, b: &str) -> (r: bool)
    ensures
        r == (a@ == b@),
{
    let la = a.unicode_len();
    let lb = b.unicode_len();
    if la != lb {
        proof {
            if a@ == b@ {
                assert(a@.len() == b@.len());
            }
        }
        return false;
    }
    let mut i: usize = 0;
    while i < la
        invariant
            i <= la == a@.len() == b@.len(),
            forall|k: int| 0 <= k < i ==> a@[k] == b@[k],
        decreases la - i,
    {
        if a.get_char(i) != b.get_char(i) {
            proof {
                assert(a@[i as int] != b@[i as int]);
            }
            return false;
        }
        i = i + 1;
    }
    proof {
        assert(a@ =~= b@);
    }
    true
}

} // verus!
