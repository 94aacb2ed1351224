//! The solver configuration: which driver variant to run, and the knobs the
//! command line hands over (layer width, time budget, threads, cluster count
//! and the two compression switches).

use vstd::prelude::*;

verus! {

use vstd::utf8::encode_utf8_decode_utf8;

/// The two driver variants behind the common model interface.
#[derive(Clone, Copy, Debug, PartialEq, Eq, Hash, Structural)]
pub enum SolverType {
    Classic,
    Hybrid,
}

impl SolverType {
    /// Parses the variant name, rejecting anything but the two known ones.
    pub fn from_str(s: &str) -> (r: Result<SolverType, &'static str>)
        ensures
            s@ == "classic"@ ==> r == Ok::<SolverType, &'static str>(SolverType::Classic),
            s@ == "hybrid"@ ==> r == Ok::<SolverType, &'static str>(SolverType::Hybrid),
            s@ != "classic"@ && s@ != "hybrid"@ ==> r == Err::<SolverType, &'static str>(
                "The only supported frontier types are 'classic' and 'hybrid'",
            ),
    {
        proof {
            reveal_strlit("classic");
            reveal_strlit("hybrid");
            assert("classic"@.len() == 7 && "hybrid"@.len() == 6);
            assert("classic"@ != "hybrid"@);
        }
        if str_eq(s, "classic") {
            Ok(SolverType::Classic)
        } else if str_eq(s, "hybrid") {
            Ok(SolverType::Hybrid)
        } else {
            Err("The only supported frontier types are 'classic' and 'hybrid'")
        }
    }

    /// The name of the variant, as `from_str` accepts it.
    pub fn name(&self) -> (r: &'static str)
        ensures
            *self == SolverType::Classic ==> r@ == "classic"@,
            *self == SolverType::Hybrid ==> r@ == "hybrid"@,
    {
        match self {
            SolverType::Classic => "classic",
            SolverType::Hybrid => "hybrid",
        }
    }
}

/// Exact string equality, decided byte by byte.
fn str_eq(a: &str, b: &str) -> (r: bool)
    ensures
        r == (a@ == b@),
{
    let ab = a.as_bytes();
    let bb = b.as_bytes();
    proof {
        encode_utf8_decode_utf8(a@);
        encode_utf8_decode_utf8(b@);
    }
    if ab.len() != bb.len() {
        return false;
    }
    let mut i: usize = 0;
    while i < ab.len()
        invariant
            i <= ab.len(),
            forall|j: int| 0 <= j < i ==> ab@[j] == bb@[j],
        decreases ab.len() - i,
    {
        if ab[i] != bb[i] {
            return false;
        }
        i = i + 1;
    }
    proof {
        assert(ab@ =~= bb@);
    }
    true
}

/// The configuration of one solver run.
#[derive(Clone, Debug)]
pub struct Solve {
    /// Where the instance to solve resides.
    pub instance: String,
    /// Maximum number of nodes kept in one layer of a diagram.
    pub width: usize,
    /// Wall-clock budget, in seconds.
    pub timeout: u64,
    /// Worker threads of the driver.
    pub threads: usize,
    /// Number of scene clusters of the compressed problem.
    pub n_meta_items: usize,
    /// Whether the compression-based bound tightens the relaxation.
    pub compression_bound: bool,
    /// Whether the compression-based decision ordering is used.
    pub compression_heuristic: bool,
    /// The driver variant to run.
    pub solver: SolverType,
}

} // verus!
