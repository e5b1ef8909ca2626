//! The input records of the placement algorithm and its configuration.

use vstd::prelude::*;

verus! {

/// A point of interest to be placed on a ring.
///
/// `azimuth` is its angular position in fixed-point angle units, in
/// `[0, full_turn)`.  `dist` is the original radial distance from the origin,
/// in any fixed-point scale: it is used only as the processing-order key.
/// `text` is the display label, carried through unchanged.
#[derive(Debug)]
pub struct Target {
    pub id: i32,
    pub text: String,
    pub azimuth: u64,
    pub dist: u64,
}

impl Clone for Target {
    fn clone(&self) -> (r: Self)
        ensures
            r == *self,
    {
        Target {
            id: self.id,
            text: self.text.clone(),
            azimuth: self.azimuth,
            dist: self.dist,
        }
    }
}

/// Why a configuration was rejected.
#[derive(Clone, Copy, Debug, PartialEq, Eq, Structural)]
pub enum ConfigError {
    /// `full_turn` is zero.
    ZeroTurn,
    /// `full_turn` is too large for wrap-around arithmetic on `u64` azimuths.
    TurnTooLarge,
    /// Some ring's minimum separation angle is zero or exceeds a full turn.
    SeparationOutOfRange,
}

/// Parameters of a placement run.
///
/// `full_turn` is the number of angle units in one full circle.
/// `min_seps[k]` is the minimum angular separation required between two
/// targets on ring `k`; its length is the number of rings available, so it
/// also caps overflow.  Callers derive these values from their label
/// geometry (see the crate documentation).
#[derive(Debug)]
pub struct Config {
    pub full_turn: u64,
    pub min_seps: Vec<u64>,
}

/// The largest `full_turn` a `Config` accepts: it keeps `azimuth + full_turn`
/// within `u64` for every azimuth below `full_turn`.
pub const MAX_FULL_TURN: u64 = 0x7fff_ffff_ffff_ffff;

impl Config {
    /// A well-formed configuration: the full turn is positive and small
    /// enough for wrap-around sums, and every ring's minimum separation is
    /// positive (so equal azimuths always conflict) and at most a full turn.
    pub open spec fn wf(&self) -> bool {
        &&& 1 <= self.full_turn <= MAX_FULL_TURN
        &&& forall|k: int|
            0 <= k < self.min_seps@.len() ==> 1 <= #[trigger] self.min_seps@[k] <= self.full_turn
    }

    /// How many rings this configuration provides.
    pub open spec fn spec_max_rings(&self) -> int {
        self.min_seps@.len() as int
    }

    /// Validates the parameters of a placement run; returns the
    /// configuration exactly when it is well-formed, and otherwise says
    /// which parameter was rejected.
    pub fn new(full_turn: u64, min_seps: Vec<u64>) -> (r: Result<Config, ConfigError>)
        ensures
            match r {
                Ok(cfg) => {
                    &&& cfg.wf()
                    &&& cfg.full_turn == full_turn
                    &&& cfg.min_seps@ == min_seps@
                },
                Err(e) => {
                    &&& !(Config { full_turn, min_seps }).wf()
                    &&& (e == ConfigError::ZeroTurn <==> full_turn == 0)
                    &&& (e == ConfigError::TurnTooLarge <==> full_turn > MAX_FULL_TURN)
                },
            },
    {
        if full_turn == 0 {
            return Err(ConfigError::ZeroTurn);
        }
        if full_turn > MAX_FULL_TURN {
            return Err(ConfigError::TurnTooLarge);
        }
        let mut k: usize = 0;
        while k < min_seps.len()
            invariant
                k <= min_seps@.len(),
                forall|j: int| 0 <= j < k ==> 1 <= #[trigger] min_seps@[j] <= full_turn,
                1 <= full_turn <= MAX_FULL_TURN,
            decreases min_seps@.len() - k,
        {
            if min_seps[k] == 0 || min_seps[k] > full_turn {
                proof {
                    let bad = (Config { full_turn, min_seps }).min_seps@[k as int];
                    assert(!(1 <= bad <= full_turn));
                }
                return Err(ConfigError::SeparationOutOfRange);
            }
            k += 1;
        }
        Ok(Config { full_turn, min_seps })
    }

    /// The number of rings available.
    pub fn max_rings(&self) -> (n: usize)
        ensures
            n == self.spec_max_rings(),
    {
        self.min_seps.len()
    }
}

} // verus!
