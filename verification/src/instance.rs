//! The immutable record of a talent scheduling instance: scene and actor
//! counts, per-actor daily cost, per-scene duration, and the requirement
//! matrix saying which actors each scene needs.

use vstd::prelude::*;

verus! {

/// Ceiling on the total cost, the total duration and their product, so that
/// every partial sum of `cost[a] * duration[s]` terms fits an `isize` on any
/// machine the solver runs on.
pub const MAGNITUDE_LIMIT: usize = 0x7fff_ffff;

/// Sum of the first `n` entries of `s`.
pub open spec fn sum_prefix(s: Seq<usize>, n: int) -> int
    decreases n,
{
    if n <= 0 {
        0
    } else {
        sum_prefix(s, n - 1) + s[n - 1]
    }
}

/// Sum of all entries of `s`.
pub open spec fn seq_sum(s: Seq<usize>) -> int {
    sum_prefix(s, s.len() as int)
}

/// A talent scheduling instance. `actors[a][s]` is 1 when actor `a` plays in
/// scene `s` and 0 otherwise.
#[derive(Clone, Debug)]
pub struct TalentSchedInstance {
    pub nb_scenes: usize,
    pub nb_actors: usize,
    pub cost: Vec<usize>,
    pub duration: Vec<usize>,
    pub actors: Vec<Vec<usize>>,
}

/// The reason an instance was rejected at construction.
#[derive(Clone, Copy, Debug, PartialEq, Eq, Structural)]
pub enum InstanceError {
    /// More than 64 scenes.
    TooManyScenes,
    /// More than 64 actors.
    TooManyActors,
    /// `cost` does not have one entry per actor.
    CostLength,
    /// `duration` does not have one entry per scene.
    DurationLength,
    /// `actors` does not have one row per actor.
    ActorsLength,
    /// Some row of `actors` does not have one entry per scene.
    ActorsRowLength,
    /// Some scene has duration zero.
    ZeroDuration,
    /// Some requirement entry is neither 0 nor 1.
    BadRequirement,
    /// The totals exceed `MAGNITUDE_LIMIT`.
    TooLarge,
}

impl TalentSchedInstance {
    /// All dimensions agree, requirements are bits, durations are positive.
    pub open spec fn dims_ok(self) -> bool {
        &&& self.nb_scenes <= 64
        &&& self.nb_actors <= 64
        &&& self.cost.len() == self.nb_actors
        &&& self.duration.len() == self.nb_scenes
        &&& self.actors.len() == self.nb_actors
        &&& forall|a: int|
            0 <= a < self.nb_actors ==> #[trigger] self.actors[a].len() == self.nb_scenes
        &&& forall|s: int| 0 <= s < self.nb_scenes ==> #[trigger] self.duration[s] >= 1
        &&& forall|a: int, s: int|
            0 <= a < self.nb_actors && 0 <= s < self.nb_scenes ==> (#[trigger] self.actors[a][s]
                == 0 || self.actors[a][s] == 1)
    }

    /// Sum of all per-actor daily costs.
    pub open spec fn total_cost(self) -> int {
        seq_sum(self.cost@)
    }

    /// Sum of all scene durations.
    pub open spec fn total_duration(self) -> int {
        seq_sum(self.duration@)
    }

    /// Totals small enough that no cost sum overflows the machine.
    pub open spec fn fits(self) -> bool {
        &&& self.total_cost() <= MAGNITUDE_LIMIT
        &&& self.total_duration() <= MAGNITUDE_LIMIT
        &&& self.total_cost() * self.total_duration() <= MAGNITUDE_LIMIT
    }

    /// A well-formed instance: the only inputs the solver works on.
    pub open spec fn wf(self) -> bool {
        self.dims_ok() && self.fits()
    }

    /// The verdict `validate` must return, checks in order of priority.
    pub open spec fn validation(self) -> Result<(), InstanceError> {
        if self.nb_scenes > 64 {
            Err(InstanceError::TooManyScenes)
        } else if self.nb_actors > 64 {
            Err(InstanceError::TooManyActors)
        } else if self.cost.len() != self.nb_actors {
            Err(InstanceError::CostLength)
        } else if self.duration.len() != self.nb_scenes {
            Err(InstanceError::DurationLength)
        } else if self.actors.len() != self.nb_actors {
            Err(InstanceError::ActorsLength)
        } else if exists|a: int|
            0 <= a < self.nb_actors && #[trigger] self.actors[a].len() != self.nb_scenes {
            Err(InstanceError::ActorsRowLength)
        } else if exists|s: int| 0 <= s < self.nb_scenes && #[trigger] self.duration[s] == 0 {
            Err(InstanceError::ZeroDuration)
        } else if exists|a: int, s: int|
            0 <= a < self.nb_actors && 0 <= s < self.nb_scenes && #[trigger] self.actors[a][s]
                != 0 && self.actors[a][s] != 1 {
            Err(InstanceError::BadRequirement)
        } else if !self.fits() {
            Err(InstanceError::TooLarge)
        } else {
            Ok(())
        }
    }

    /// Checks the instance, returning the highest-priority defect if any.
    /// Accepts exactly the well-formed instances.
    pub fn validate(&self) -> (r: Result<(), InstanceError>)
        ensures
            r == self.validation(),
            r is Ok <==> self.wf(),
    {
        if self.nb_scenes > 64 {
            return Err(InstanceError::TooManyScenes);
        }
        if self.nb_actors > 64 {
            return Err(InstanceError::TooManyActors);
        }
        if self.cost.len() != self.nb_actors {
            return Err(InstanceError::CostLength);
        }
        if self.duration.len() != self.nb_scenes {
            return Err(InstanceError::DurationLength);
        }
        if self.actors.len() != self.nb_actors {
            return Err(InstanceError::ActorsLength);
        }
        let mut a: usize = 0;
        while a < self.nb_actors
            invariant
                a <= self.nb_actors,
                self.actors.len() == self.nb_actors,
                forall|i: int| 0 <= i < a ==> #[trigger] self.actors[i].len() == self.nb_scenes,
            decreases self.nb_actors - a,
        {
            if self.actors[a].len() != self.nb_scenes {
                proof {
                    assert(self.actors[a as int].len() != self.nb_scenes);
                }
                return Err(InstanceError::ActorsRowLength);
            }
            a = a + 1;
        }
        let mut s: usize = 0;
        while s < self.nb_scenes
            invariant
                s <= self.nb_scenes,
                self.duration.len() == self.nb_scenes,
                forall|i: int| 0 <= i < s ==> #[trigger] self.duration[i] != 0,
            decreases self.nb_scenes - s,
        {
            if self.duration[s] == 0 {
                proof {
                    assert(self.duration[s as int] == 0);
                }
                return Err(InstanceError::ZeroDuration);
            }
            s = s + 1;
        }
        let mut a: usize = 0;
        while a < self.nb_actors
            invariant
                a <= self.nb_actors,
                self.dims_len_ok(),
                forall|i: int, j: int|
                    0 <= i < a && 0 <= j < self.nb_scenes ==> (#[trigger] self.actors[i][j] == 0
                        || self.actors[i][j] == 1),
            decreases self.nb_actors - a,
        {
            let mut s: usize = 0;
            while s < self.nb_scenes
                invariant
                    a < self.nb_actors,
                    s <= self.nb_scenes,
                    self.dims_len_ok(),
                    forall|j: int|
                        0 <= j < s ==> (#[trigger] self.actors[a as int][j] == 0
                            || self.actors[a as int][j] == 1),
                decreases self.nb_scenes - s,
            {
                proof {
                    assert(self.actors[a as int].len() == self.nb_scenes);
                }
                if self.actors[a][s] > 1 {
                    proof {
                        assert(self.actors[a as int][s as int] != 0 && self.actors[a as int][
                            s as int] != 1);
                    }
                    return Err(InstanceError::BadRequirement);
                }
                s = s + 1;
            }
            a = a + 1;
        }
        let cs = sum_checked(&self.cost);
        if cs > MAGNITUDE_LIMIT as u128 {
            return Err(InstanceError::TooLarge);
        }
        let ds = sum_checked(&self.duration);
        if ds > MAGNITUDE_LIMIT as u128 {
            return Err(InstanceError::TooLarge);
        }
        proof {
            assert(cs * ds <= 0x7fff_ffffu128 * 0x7fff_ffffu128) by (nonlinear_arith)
                requires
                    0 <= cs <= 0x7fff_ffffu128,
                    0 <= ds <= 0x7fff_ffffu128,
            ;
        }
        if cs * ds > MAGNITUDE_LIMIT as u128 {
            return Err(InstanceError::TooLarge);
        }
        Ok(())
    }

    /// The length conditions alone, shared by the validation loops.
    pub open spec fn dims_len_ok(self) -> bool {
        &&& self.cost.len() == self.nb_actors
        &&& self.duration.len() == self.nb_scenes
        &&& self.actors.len() == self.nb_actors
        &&& forall|a: int|
            0 <= a < self.nb_actors ==> #[trigger] self.actors[a].len() == self.nb_scenes
    }
}

/// Sum of a vector of at most 64 entries, computed without overflow.
fn sum_checked(v: &Vec<usize>) -> (r: u128)
    requires
        v.len() <= 64,
    ensures
        r == seq_sum(v@),
{
    let mut acc: u128 = 0;
    let mut i: usize = 0;
    while i < v.len()
        invariant
            i <= v.len() <= 64,
            acc == sum_prefix(v@, i as int),
            acc <= i * 0x1_0000_0000_0000_0000u128,
        decreases v.len() - i,
    {
        proof {
            assert(v@[i as int] < 0x1_0000_0000_0000_0000u128);
        }
        acc = acc + (v[i] as u128);
        i = i + 1;
    }
    acc
}

} // verus!
