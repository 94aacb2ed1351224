//! Compression of the problem onto clusters of similar scenes.
//!
//! Scenes are grouped into a requested number of clusters by agglomerative
//! clustering over their requirement rows, repeatedly merging the pair of
//! clusters whose union forgets the cheapest set of actor-days. The clusters
//! form the scenes of a meta problem: durations add up, and a cluster
//! requires an actor only when every member scene does. States of the
//! original problem compress to meta states when they align with the
//! clustering, and solutions of the meta problem decompress to full-length
//! decision sequences.

use vstd::prelude::*;

verus! {

use crate::bitset::BitSet64;
use crate::instance::MAGNITUDE_LIMIT;
use crate::instance::TalentSchedInstance;
use crate::instance::seq_sum;
use crate::instance::sum_prefix;
use crate::model::Decision;
use crate::model::TalentSched;
use crate::model::TalentSchedState;
use crate::model::lemma_set_cost_below_bounds;
use crate::model::lemma_sum_prefix_bounds;
use crate::model::lemma_sum_prefix_ge_elem;
use crate::model::set_cost_below;

/// Some scene is assigned to cluster `c`.
pub open spec fn cluster_used(membership: Seq<usize>, c: int) -> bool {
    exists|i: int| 0 <= i < membership.len() && #[trigger] membership[i] == c
}

/// The scenes that `membership` assigns to cluster `c`.
pub open spec fn member_set(membership: Seq<usize>, c: int) -> Set<int> {
    Set::new(|i: int| 0 <= i < membership.len() && membership[i] == c)
}

/// Sum of the durations of the selected scenes below `n`.
pub open spec fn duration_sum_below(pb: TalentSched, sel: Set<int>, n: int) -> int
    decreases n,
{
    if n <= 0 {
        0
    } else {
        duration_sum_below(pb, sel, n - 1) + if sel.contains(n - 1) {
            pb.instance.duration[n - 1] as int
        } else {
            0
        }
    }
}

/// The selected durations are nonnegative and no more than all durations.
pub proof fn lemma_duration_sum_bounds(pb: TalentSched, sel: Set<int>, n: int)
    ensures
        0 <= duration_sum_below(pb, sel, n),
        duration_sum_below(pb, sel, n) <= sum_prefix(pb.instance.duration@, n),
    decreases n,
{
    if n > 0 {
        lemma_duration_sum_bounds(pb, sel, n - 1);
    }
}

/// A selected scene's duration is covered by the selected sum.
pub proof fn lemma_duration_sum_ge_elem(pb: TalentSched, sel: Set<int>, n: int, i: int)
    requires
        0 <= i < n,
        sel.contains(i),
    ensures
        pb.instance.duration[i] <= duration_sum_below(pb, sel, n),
    decreases n,
{
    lemma_duration_sum_bounds(pb, sel, i);
    if i == n - 1 {
    } else {
        lemma_duration_sum_ge_elem(pb, sel, n - 1, i);
    }
}

/// Updating one entry moves the prefix sum by the difference, when the
/// entry lies in the summed prefix.
proof fn lemma_sum_prefix_update(s: Seq<usize>, j: int, x: usize, n: int)
    requires
        0 <= j < s.len(),
        n <= s.len(),
    ensures
        sum_prefix(s.update(j, x), n) == sum_prefix(s, n) + if j < n {
            x - s[j]
        } else {
            0
        },
    decreases n,
{
    if n > 0 {
        lemma_sum_prefix_update(s, j, x, n - 1);
    }
}

/// Prefix sums agree on sequences that agree below `n`.
proof fn lemma_sum_prefix_agree(s1: Seq<usize>, s2: Seq<usize>, n: int)
    requires
        forall|j: int| 0 <= j < n ==> s1[j] == s2[j],
    ensures
        sum_prefix(s1, n) == sum_prefix(s2, n),
    decreases n,
{
    if n > 0 {
        lemma_sum_prefix_agree(s1, s2, n - 1);
    }
}

/// Per-cluster durations of the meta problem: the summed durations of each
/// cluster's scenes. Their total equals the total of the original durations.
pub fn compute_meta_duration(
    pb: &TalentSched,
    membership: &Vec<usize>,
    n_meta_scenes: usize,
) -> (r: Vec<usize>)
    requires
        pb.wf(),
        membership.len() == pb.instance.nb_scenes,
        forall|i: int| 0 <= i < membership.len() ==> #[trigger] membership[i] < n_meta_scenes,
    ensures
        r.len() == n_meta_scenes,
        forall|c: int|
            0 <= c < n_meta_scenes ==> #[trigger] r[c] == duration_sum_below(
                *pb,
                member_set(membership@, c),
                pb.instance.nb_scenes as int,
            ),
        seq_sum(r@) == pb.instance.total_duration(),
{
    let nb_scenes = pb.instance.nb_scenes;
    let mut r: Vec<usize> = Vec::new();
    let mut c: usize = 0;
    while c < n_meta_scenes
        invariant
            c <= n_meta_scenes,
            r.len() == c,
            forall|j: int| 0 <= j < c ==> #[trigger] r[j] == 0,
            sum_prefix(r@, c as int) == 0,
        decreases n_meta_scenes - c,
    {
        let ghost prev = r@;
        r.push(0);
        proof {
            lemma_sum_prefix_agree(r@, prev, c as int);
        }
        c = c + 1;
    }
    let mut i: usize = 0;
    while i < nb_scenes
        invariant
            i <= nb_scenes,
            r.len() == n_meta_scenes,
            forall|c: int|
                0 <= c < n_meta_scenes ==> #[trigger] r[c] == duration_sum_below(
                    *pb,
                    member_set(membership@, c),
                    i as int,
                ),
            seq_sum(r@) == sum_prefix(pb.instance.duration@, i as int),
        decreases nb_scenes - i,
    {
        let j = membership[i];
        let d = pb.instance.duration[i];
        proof {
            lemma_sum_prefix_ge_elem(r@, n_meta_scenes as int, j as int);
            lemma_sum_prefix_bounds(pb.instance.duration@, i + 1);
            lemma_sum_prefix_update(r@, j as int, (r[j as int] + d) as usize, n_meta_scenes as int);
        }
        let v = r[j] + d;
        r.set(j, v);
        proof {
            assert forall|c: int| 0 <= c < n_meta_scenes implies #[trigger] r[c]
                == duration_sum_below(*pb, member_set(membership@, c), i + 1) by {
                assert(member_set(membership@, c).contains(i as int) <==> membership@[i as int]
                    == c);
            }
        }
        i = i + 1;
    }
    r
}

/// Per-cluster requirement rows of the meta problem: a cluster needs an
/// actor exactly when each of its scenes does.
pub fn compute_meta_actors(
    pb: &TalentSched,
    membership: &Vec<usize>,
    n_meta_scenes: usize,
) -> (r: Vec<Vec<usize>>)
    requires
        pb.wf(),
        membership.len() == pb.instance.nb_scenes,
        forall|i: int| 0 <= i < membership.len() ==> #[trigger] membership[i] < n_meta_scenes,
    ensures
        r.len() == pb.instance.nb_actors,
        forall|a: int| 0 <= a < r.len() ==> #[trigger] r[a].len() == n_meta_scenes,
        forall|a: int, c: int|
            0 <= a < r.len() && 0 <= c < n_meta_scenes ==> ((#[trigger] r[a][c] == 1 <==> forall|
                i: int,
            |
                0 <= i < membership.len() && membership[i] == c
                    ==> #[trigger] pb.instance.actors[a][i] == 1) && (r[a][c] == 0 || r[a][c] == 1)),
{
    let nb_scenes = pb.instance.nb_scenes;
    let nb_actors = pb.instance.nb_actors;
    let mut r: Vec<Vec<usize>> = Vec::new();
    let mut a: usize = 0;
    while a < nb_actors
        invariant
            a <= nb_actors,
            r.len() == a,
            forall|x: int| 0 <= x < a ==> #[trigger] r[x].len() == n_meta_scenes,
            forall|x: int, c: int|
                0 <= x < a && 0 <= c < n_meta_scenes ==> ((#[trigger] r[x][c] == 1 <==> forall|
                    i: int,
                |
                    0 <= i < membership.len() && membership[i] == c
                        ==> #[trigger] pb.instance.actors[x][i] == 1) && (r[x][c] == 0 || r[x][c]
                    == 1)),
        decreases nb_actors - a,
    {
        let mut row: Vec<usize> = Vec::new();
        let mut c: usize = 0;
        while c < n_meta_scenes
            invariant
                c <= n_meta_scenes,
                row.len() == c,
                forall|x: int| 0 <= x < c ==> #[trigger] row[x] == 1,
            decreases n_meta_scenes - c,
        {
            row.push(1);
            c = c + 1;
        }
        let mut i: usize = 0;
        while i < nb_scenes
            invariant
                i <= nb_scenes,
                a < nb_actors,
                row.len() == n_meta_scenes,
                forall|c: int|
                    0 <= c < n_meta_scenes ==> ((#[trigger] row[c] == 1 <==> forall|x: int|
                        0 <= x < i && membership@[x] == c ==> #[trigger] pb.instance.actors[a as int][x]
                            == 1) && (row[c] == 0 || row[c] == 1)),
            decreases nb_scenes - i,
        {
            proof {
                assert(pb.instance.actors[a as int].len() == nb_scenes);
            }
            if pb.instance.actors[a][i] == 0 {
                let j = membership[i];
                row.set(j, 0);
            }
            i = i + 1;
        }
        r.push(row);
        a = a + 1;
    }
    r
}

/// The value `v`, `n` times over.
pub open spec fn repeat_val(v: int, n: nat) -> Seq<int> {
    Seq::new(n, |x: int| v)
}

/// The number of occurrences of cluster `c` among the first `k` decisions.
pub open spec fn occ(sol: Seq<Decision>, c: int, k: int) -> int
    decreases k,
{
    if k <= 0 {
        0
    } else {
        occ(sol, c, k - 1) + if sol[k - 1].value == c {
            1int
        } else {
            0int
        }
    }
}

/// The number of occurrences of `c` in `s`.
pub open spec fn count_val(s: Seq<int>, c: int) -> int
    decreases s.len(),
{
    if s.len() == 0 {
        0
    } else {
        count_val(s.drop_last(), c) + if s.last() == c {
            1int
        } else {
            0int
        }
    }
}

/// The compression of a problem: the clustering, the meta problem built on
/// it, and the member sets and sizes of the clusters.
#[derive(Clone, Debug)]
pub struct TalentSchedCompression {
    pub problem: TalentSched,
    pub meta_problem: TalentSched,
    pub membership: Vec<usize>,
    pub members: Vec<BitSet64>,
    pub size: Vec<usize>,
}

impl TalentSchedCompression {
    /// The number of clusters: the meta problem has one scene per cluster.
    pub open spec fn nb_clusters(self) -> int {
        self.meta_problem.instance.nb_scenes as int
    }

    /// The compression invariant: the clustering is a partition of the
    /// scenes into nonempty clusters, the member sets and sizes restate it,
    /// and the meta problem contracts it — costs are kept, durations add up
    /// per cluster, and a cluster requires an actor exactly when all of its
    /// scenes do.
    pub open spec fn wf(self) -> bool {
        let s = self.problem.instance.nb_scenes as int;
        let k = self.nb_clusters();
        &&& self.problem.wf()
        &&& self.meta_problem.wf()
        &&& 1 <= k <= s
        &&& self.membership.len() == s
        &&& forall|i: int| 0 <= i < s ==> #[trigger] self.membership[i] < k
        &&& self.members.len() == k
        &&& self.size.len() == k
        &&& forall|c: int|
            0 <= c < k ==> #[trigger] self.members[c]@ == member_set(self.membership@, c)
        &&& forall|c: int|
            0 <= c < k ==> #[trigger] self.size[c] == member_set(self.membership@, c).len()
        &&& forall|c: int| 0 <= c < k ==> #[trigger] self.size[c] >= 1
        &&& seq_sum(self.size@) == s
        &&& self.meta_problem.instance.nb_actors == self.problem.instance.nb_actors
        &&& self.meta_problem.instance.cost@ == self.problem.instance.cost@
        &&& forall|c: int|
            0 <= c < k ==> #[trigger] self.meta_problem.instance.duration[c] == duration_sum_below(
                self.problem,
                member_set(self.membership@, c),
                s,
            )
        &&& forall|a: int, c: int|
            0 <= a < self.problem.instance.nb_actors && 0 <= c < k
                ==> (#[trigger] self.meta_problem.instance.actors[a][c] == 1 <==> forall|i: int|
                0 <= i < s && self.membership[i] == c ==> #[trigger] self.problem.instance.actors[a][i]
                    == 1)
    }

    /// The meta problem the driver compiles in place of the full problem.
    pub fn get_compressed_problem(&self) -> (r: &TalentSched)
        ensures
            r == &self.meta_problem,
    {
        &self.meta_problem
    }

    /// Cluster `c` is split by `st`: it has a scene still to shoot and one
    /// not.
    pub open spec fn cluster_split(self, st: TalentSchedState, c: int) -> bool {
        &&& exists|i: int| #[trigger] self.members[c]@.contains(i) && st.scenes@.contains(i)
        &&& exists|i: int| #[trigger] self.members[c]@.contains(i) && !st.scenes@.contains(i)
    }

    /// Some cluster is split by `st`, so `st` has no faithful compression.
    pub open spec fn split_cluster_exists(self, st: TalentSchedState) -> bool {
        exists|c: int| 0 <= c < self.nb_clusters() && #[trigger] self.cluster_split(st, c)
    }

    /// The clusters wholly awaiting shooting at `st`.
    pub open spec fn full_clusters(self, st: TalentSchedState) -> Set<int> {
        Set::new(
            |c: int|
                0 <= c < self.nb_clusters() && self.members[c]@.subset_of(st.scenes@),
        )
    }

    /// Compresses a state to a state of the meta problem: the clusters that
    /// remain whole. A state with uncertain scenes, or one that splits some
    /// cluster, has no faithful compression and yields the empty state.
    pub fn compress(&self, state: &TalentSchedState) -> (r: TalentSchedState)
        requires
            self.wf(),
        ensures
            r.maybe_scenes@ == Set::<int>::empty(),
            state.maybe_scenes@ != Set::<int>::empty() || self.split_cluster_exists(*state)
                ==> r.scenes@ == Set::<int>::empty(),
            state.maybe_scenes@ == Set::<int>::empty() && !self.split_cluster_exists(*state)
                ==> r.scenes@ == self.full_clusters(*state),
    {
        let nb_clusters = self.meta_problem.instance.nb_scenes;
        let mut scenes = BitSet64::empty();
        if !state.maybe_scenes.is_empty() {
            return TalentSchedState { scenes, maybe_scenes: BitSet64::empty() };
        }
        let mut c: usize = 0;
        while c < nb_clusters
            invariant
                c <= nb_clusters,
                forall|x: int| 0 <= x < c ==> !(#[trigger] self.cluster_split(*state, x)),
                scenes@ == Set::new(
                    |x: int| 0 <= x < c && self.members[x]@.subset_of(state.scenes@),
                ),
            decreases nb_clusters - c,
        {
            let inter = state.scenes.intersect(self.members[c]);
            let stray = self.members[c].difference(state.scenes);
            if stray.is_empty() {
                scenes = scenes.insert(c);
                proof {
                    assert forall|i: int|
                        self.members[c as int]@.contains(i) implies state.scenes@.contains(i) by {
                        if !state.scenes@.contains(i) {
                            assert(stray@.contains(i));
                        }
                    }
                    assert(self.members[c as int]@.subset_of(state.scenes@));
                    assert(scenes@ =~= Set::new(
                        |x: int| 0 <= x < c + 1 && self.members[x]@.subset_of(state.scenes@),
                    ));
                }
            } else if !inter.is_empty() {
                proof {
                    inter.lemma_nonempty_member();
                    stray.lemma_nonempty_member();
                    assert(self.cluster_split(*state, c as int));
                }
                return TalentSchedState {
                    scenes: BitSet64::empty(),
                    maybe_scenes: BitSet64::empty(),
                };
            } else {
                proof {
                    assert(!self.cluster_split(*state, c as int)) by {
                        if self.cluster_split(*state, c as int) {
                            let i = choose|i: int|
                                #[trigger] self.members[c as int]@.contains(i)
                                    && state.scenes@.contains(i);
                            assert(inter@.contains(i));
                        }
                    }
                    assert(!self.members[c as int]@.subset_of(state.scenes@)) by {
                        stray.lemma_nonempty_member();
                        let i = choose|i: int| stray@.contains(i);
                        assert(self.members[c as int]@.contains(i) && !state.scenes@.contains(i));
                    }
                    assert(scenes@ =~= Set::new(
                        |x: int| 0 <= x < c + 1 && self.members[x]@.subset_of(state.scenes@),
                    ));
                }
            }
            proof {
                assert(stray@ == Set::<int>::empty() ==> !self.cluster_split(*state, c as int))
                    by {
                    if self.cluster_split(*state, c as int) {
                        let i = choose|i: int|
                            #[trigger] self.members[c as int]@.contains(i)
                                && !state.scenes@.contains(i);
                        assert(stray@.contains(i));
                    }
                }
            }
            c = c + 1;
        }
        proof {
            assert(!self.split_cluster_exists(*state)) by {
                if self.split_cluster_exists(*state) {
                    let x = choose|x: int|
                        0 <= x < self.nb_clusters() && #[trigger] self.cluster_split(*state, x);
                    assert(!self.cluster_split(*state, x));
                }
            }
            assert(scenes@ =~= self.full_clusters(*state));
        }
        TalentSchedState { scenes, maybe_scenes: BitSet64::empty() }
    }

    /// Total number of decisions the first `k` meta decisions expand to.
    pub open spec fn expanded_len_upto(self, sol: Seq<Decision>, k: int) -> int
        decreases k,
    {
        if k <= 0 {
            0
        } else {
            self.expanded_len_upto(sol, k - 1) + self.size[sol[k - 1].value as int]
        }
    }

    /// The expansion of a whole meta solution: its length.
    pub open spec fn expanded_len(self, sol: Seq<Decision>) -> int {
        self.expanded_len_upto(sol, sol.len() as int)
    }

    /// The values of the expansion of the first `k` meta decisions: each
    /// decision for cluster `c` repeated once per member scene.
    pub open spec fn expanded_values_upto(self, sol: Seq<Decision>, k: int) -> Seq<int>
        decreases k,
    {
        if k <= 0 {
            Seq::empty()
        } else {
            self.expanded_values_upto(sol, k - 1) + repeat_val(
                sol[k - 1].value as int,
                self.size[sol[k - 1].value as int] as nat,
            )
        }
    }

    /// The values of the expansion of a whole meta solution.
    pub open spec fn expanded_values(self, sol: Seq<Decision>) -> Seq<int> {
        self.expanded_values_upto(sol, sol.len() as int)
    }

    /// The expansion's length grows with the prefix and counts its values.
    pub proof fn lemma_expanded_len(self, sol: Seq<Decision>, k: int)
        requires
            k <= sol.len(),
        ensures
            0 <= self.expanded_len_upto(sol, k) <= self.expanded_len(sol),
            self.expanded_values_upto(sol, k).len() == self.expanded_len_upto(sol, k),
        decreases sol.len() - k, sol.len() + 1 - k,
    {
        self.lemma_expanded_len_aux(sol, k);
        if k < sol.len() {
            self.lemma_expanded_len(sol, k + 1);
        }
    }

    proof fn lemma_expanded_len_aux(self, sol: Seq<Decision>, k: int)
        ensures
            0 <= self.expanded_len_upto(sol, k),
            self.expanded_values_upto(sol, k).len() == self.expanded_len_upto(sol, k),
        decreases k,
    {
        if k > 0 {
            self.lemma_expanded_len_aux(sol, k - 1);
        }
    }

    /// Expands a meta solution: each decision for cluster `c` becomes
    /// `size[c]` consecutive decisions for `c`, and the variables are
    /// renumbered to end at the last variable of the original problem.
    pub fn decompress(&self, solution: &Vec<Decision>) -> (r: Vec<Decision>)
        requires
            self.wf(),
            forall|k: int|
                0 <= k < solution.len() ==> #[trigger] solution[k].value < self.nb_clusters(),
            self.expanded_len(solution@) <= self.problem.instance.nb_scenes,
        ensures
            r.len() == self.expanded_len(solution@),
            r@.map_values(|d: Decision| d.value as int) == self.expanded_values(solution@),
            forall|m: int|
                0 <= m < r.len() ==> #[trigger] r[m].variable == self.problem.instance.nb_scenes
                    - r.len() + m,
    {
        let mut out: Vec<Decision> = Vec::new();
        let mut k: usize = 0;
        proof {
            assert(out@.map_values(|d: Decision| d.value as int) =~= self.expanded_values_upto(
                solution@,
                0,
            ));
        }
        while k < solution.len()
            invariant
                k <= solution.len(),
                out.len() == self.expanded_len_upto(solution@, k as int),
                out@.map_values(|d: Decision| d.value as int) == self.expanded_values_upto(
                    solution@,
                    k as int,
                ),
            decreases solution.len() - k,
        {
            let d = solution[k];
            let n = self.size[d.value];
            proof {
                self.lemma_expanded_len(solution@, k + 1);
            }
            let ghost base = out@.map_values(|d: Decision| d.value as int);
            proof {
                assert(out@.map_values(|d: Decision| d.value as int) =~= base + repeat_val(
                    d.value as int,
                    0,
                ));
            }
            let mut t: usize = 0;
            while t < n
                invariant
                    t <= n,
                    n == self.size[solution@[k as int].value as int],
                    d == solution@[k as int],
                    out.len() == self.expanded_len_upto(solution@, k as int) + t,
                    out@.map_values(|d: Decision| d.value as int) == base + repeat_val(
                        d.value as int,
                        t as nat,
                    ),
                decreases n - t,
            {
                let ghost before = out@;
                out.push(Decision { variable: 0, value: d.value });
                proof {
                    assert(out@ == before.push(Decision { variable: 0, value: d.value }));
                    lemma_map_values_push(before, Decision { variable: 0, value: d.value });
                    assert(repeat_val(d.value as int, (t + 1) as nat) =~= repeat_val(
                        d.value as int,
                        t as nat,
                    ).push(d.value as int));
                    assert(out@.map_values(|d: Decision| d.value as int) =~= base + repeat_val(
                        d.value as int,
                        (t + 1) as nat,
                    ));
                }
                t = t + 1;
            }
            proof {
                assert(out@.map_values(|d: Decision| d.value as int) =~= self.expanded_values_upto(
                    solution@,
                    k + 1,
                ));
            }
            k = k + 1;
        }
        let start = self.problem.instance.nb_scenes - out.len();
        let ghost values = out@.map_values(|d: Decision| d.value as int);
        let total = out.len();
        let mut m: usize = 0;
        while m < total
            invariant
                m <= total,
                out.len() == total,
                start + total == self.problem.instance.nb_scenes,
                out@.map_values(|d: Decision| d.value as int) == values,
                forall|x: int| 0 <= x < m ==> #[trigger] out[x].variable == start + x,
            decreases total - m,
        {
            let v = out[m].value;
            out.set(m, Decision { variable: start + m, value: v });
            proof {
                assert(out@.map_values(|d: Decision| d.value as int) =~= values);
            }
            m = m + 1;
        }
        out
    }
}

/// Mapping decisions to their values commutes with appending one.
proof fn lemma_map_values_push(s: Seq<Decision>, d: Decision)
    ensures
        (s.push(d)).map_values(|x: Decision| x.value as int) == s.map_values(
            |x: Decision| x.value as int,
        ).push(d.value as int),
{
    assert((s.push(d)).map_values(|x: Decision| x.value as int) =~= s.map_values(
        |x: Decision| x.value as int,
    ).push(d.value as int));
}

/// Appending a block of equal values adds its length to the matching count
/// and nothing elsewhere.
proof fn lemma_count_concat_const(s: Seq<int>, n: nat, v: int, c: int)
    ensures
        count_val(s + repeat_val(v, n), c) == count_val(s, c) + if v == c {
            n as int
        } else {
            0
        },
    decreases n,
{
    if n == 0 {
        assert(s + repeat_val(v, 0) =~= s);
    } else {
        assert((s + repeat_val(v, n)).drop_last() =~= s + repeat_val(v, (n - 1) as nat));
        lemma_count_concat_const(s, (n - 1) as nat, v, c);
    }
}

impl TalentSchedCompression {
    /// How often cluster `c` appears among the expanded values of the first
    /// `k` meta decisions: its own count of occurrences, `size[c]` times.
    pub proof fn lemma_expanded_count(self, sol: Seq<Decision>, c: int, k: int)
        ensures
            count_val(self.expanded_values_upto(sol, k), c) == occ(sol, c, k) * self.size[c],
        decreases k,
    {
        if k <= 0 {
            assert(occ(sol, c, k) * self.size[c] == 0) by (nonlinear_arith)
                requires
                    occ(sol, c, k) == 0,
            ;
        } else {
            self.lemma_expanded_count(sol, c, k - 1);
            let v = sol[k - 1].value as int;
            lemma_count_concat_const(
                self.expanded_values_upto(sol, k - 1),
                self.size[v] as nat,
                v,
                c,
            );
            assert(self.expanded_values_upto(sol, k) == self.expanded_values_upto(sol, k - 1)
                + repeat_val(v, self.size[v] as nat));
            if v == c {
                assert((occ(sol, c, k - 1) + 1) * self.size[c] == occ(sol, c, k - 1) * self.size[c]
                    + self.size[c]) by (nonlinear_arith);
            }
        }
    }

    /// The expanded length, written per cluster: each cluster contributes
    /// its occurrence count times its size, summed over clusters below `kk`.
    pub open spec fn occ_weighted(self, sol: Seq<Decision>, k: int, kk: int) -> int
        decreases kk,
    {
        if kk <= 0 {
            0
        } else {
            self.occ_weighted(sol, k, kk - 1) + occ(sol, kk - 1, k) * self.size[kk - 1]
        }
    }

    proof fn lemma_occ_weighted_step(self, sol: Seq<Decision>, k: int, kk: int)
        requires
            0 <= k < sol.len(),
        ensures
            self.occ_weighted(sol, k + 1, kk) == self.occ_weighted(sol, k, kk) + if sol[k].value
                < kk {
                self.size[sol[k].value as int] as int
            } else {
                0
            },
        decreases kk,
    {
        if kk > 0 {
            self.lemma_occ_weighted_step(sol, k, kk - 1);
            assert((occ(sol, kk - 1, k) + 1) * self.size[kk - 1] == occ(sol, kk - 1, k)
                * self.size[kk - 1] + self.size[kk - 1]) by (nonlinear_arith);
        }
    }

    /// The expanded length equals the per-cluster weighted sum, when every
    /// decision value lies below `kk`.
    proof fn lemma_expanded_len_weighted(self, sol: Seq<Decision>, k: int, kk: int)
        requires
            0 <= k <= sol.len(),
            forall|x: int| 0 <= x < sol.len() ==> #[trigger] sol[x].value < kk,
        ensures
            self.expanded_len_upto(sol, k) == self.occ_weighted(sol, k, kk),
        decreases k,
    {
        if k <= 0 {
            self.lemma_occ_weighted_zero(sol, k, kk);
        } else {
            self.lemma_expanded_len_weighted(sol, k - 1, kk);
            self.lemma_occ_weighted_step(sol, k - 1, kk);
        }
    }

    proof fn lemma_occ_weighted_zero(self, sol: Seq<Decision>, k: int, kk: int)
        requires
            k <= 0,
        ensures
            self.occ_weighted(sol, k, kk) == 0,
        decreases kk,
    {
        if kk > 0 {
            self.lemma_occ_weighted_zero(sol, k, kk - 1);
            assert(occ(sol, kk - 1, k) * self.size[kk - 1] == 0) by (nonlinear_arith)
                requires
                    occ(sol, kk - 1, k) == 0,
            ;
        }
    }

    /// When every cluster occurs exactly once, the weighted sum is the sum
    /// of the sizes.
    proof fn lemma_occ_weighted_once(self, sol: Seq<Decision>, k: int, kk: int)
        requires
            kk <= self.size.len(),
            forall|c: int| 0 <= c < kk ==> #[trigger] occ(sol, c, k) == 1,
        ensures
            self.occ_weighted(sol, k, kk) == sum_prefix(self.size@, kk),
        decreases kk,
    {
        if kk > 0 {
            self.lemma_occ_weighted_once(sol, k, kk - 1);
            assert(occ(sol, kk - 1, k) == 1);
            assert(1 * self.size[kk - 1] == self.size[kk - 1]) by (nonlinear_arith);
        }
    }

    /// Round trip of the compression: a meta solution that schedules every
    /// cluster exactly once expands to exactly one decision per original
    /// scene — its length is the number of scenes, and each cluster id
    /// appears once per member scene.
    pub proof fn lemma_decompress_round_trip(self, sol: Seq<Decision>)
        requires
            self.wf(),
            sol.len() == self.nb_clusters(),
            forall|x: int| 0 <= x < sol.len() ==> #[trigger] sol[x].value < self.nb_clusters(),
            forall|c: int|
                0 <= c < self.nb_clusters() ==> #[trigger] occ(sol, c, sol.len() as int) == 1,
        ensures
            self.expanded_len(sol) == self.problem.instance.nb_scenes,
            forall|c: int|
                0 <= c < self.nb_clusters() ==> count_val(self.expanded_values(sol), c)
                    == self.size[c],
    {
        let k = sol.len() as int;
        let kk = self.nb_clusters();
        self.lemma_expanded_len_weighted(sol, k, kk);
        self.lemma_occ_weighted_once(sol, k, kk);
        assert forall|c: int| 0 <= c < kk implies count_val(self.expanded_values(sol), c)
            == self.size[c] by {
            self.lemma_expanded_count(sol, c, k);
            assert(1 * self.size[c] == self.size[c]) by (nonlinear_arith);
        }
    }
}

/// The actors that every scene of `m` requires.
pub open spec fn cast_inter(pb: TalentSched, m: Set<int>) -> Set<int> {
    Set::new(
        |a: int|
            0 <= a < pb.instance.nb_actors && forall|i: int|
                #[trigger] m.contains(i) ==> pb.actors_of(i).contains(a),
    )
}

/// Cost of the actor-days forgotten by keeping only the `kept` actors: for
/// each selected scene below `n`, the cost of its actors outside `kept`
/// times its duration.
pub open spec fn loss_cost_below(pb: TalentSched, sel: Set<int>, kept: Set<int>, n: int) -> int
    decreases n,
{
    if n <= 0 {
        0
    } else {
        loss_cost_below(pb, sel, kept, n - 1) + if sel.contains(n - 1) {
            pb.set_cost(pb.actors_of(n - 1).difference(kept)) * pb.instance.duration[n - 1]
        } else {
            0
        }
    }
}

/// The loss of merging clusters `p` and `q` of `cl`: the forgotten
/// actor-days over the scenes of both, keeping the actors both require.
pub open spec fn pair_loss(pb: TalentSched, cl: Seq<(BitSet64, BitSet64)>, p: int, q: int) -> int {
    loss_cost_below(
        pb,
        cl[p].1@.union(cl[q].1@),
        cl[p].0@.intersect(cl[q].0@),
        pb.instance.nb_scenes as int,
    )
}

/// The loss is nonnegative and bounded like every actor-day sum.
proof fn lemma_loss_cost_bounds(pb: TalentSched, sel: Set<int>, kept: Set<int>, n: int)
    requires
        pb.wf(),
        n <= pb.instance.nb_scenes,
    ensures
        0 <= loss_cost_below(pb, sel, kept, n),
        loss_cost_below(pb, sel, kept, n) <= pb.instance.total_cost() * sum_prefix(
            pb.instance.duration@,
            n,
        ),
    decreases n,
{
    let tc = pb.instance.total_cost();
    let dur = pb.instance.duration@;
    if n <= 0 {
        assert(tc * sum_prefix(dur, n) == 0) by (nonlinear_arith)
            requires
                sum_prefix(dur, n) == 0,
        ;
    } else {
        lemma_loss_cost_bounds(pb, sel, kept, n - 1);
        let cast = pb.actors_of(n - 1).difference(kept);
        let step = if sel.contains(n - 1) {
            pb.set_cost(cast) * pb.instance.duration[n - 1]
        } else {
            0
        };
        let d: int = dur[n - 1] as int;
        lemma_set_cost_below_bounds(pb.instance, cast, pb.instance.nb_actors as int);
        lemma_sum_prefix_bounds(pb.instance.cost@, pb.instance.nb_actors as int);
        assert(0 <= step && step <= tc * d) by (nonlinear_arith)
            requires
                step == if sel.contains(n - 1) {
                    pb.set_cost(cast) * d
                } else {
                    0
                },
                0 <= pb.set_cost(cast) <= tc,
                0 <= d,
        ;
        assert(tc * sum_prefix(dur, n - 1) + tc * d == tc * sum_prefix(dur, n)) by (nonlinear_arith)
            requires
                sum_prefix(dur, n) == sum_prefix(dur, n - 1) + d,
        ;
    }
}

/// The loss of merging two clusters, computed scene by scene.
fn pair_loss_cost(pb: &TalentSched, x: &(BitSet64, BitSet64), y: &(BitSet64, BitSet64)) -> (r:
    usize)
    requires
        pb.wf(),
    ensures
        r == loss_cost_below(
            *pb,
            x.1@.union(y.1@),
            x.0@.intersect(y.0@),
            pb.instance.nb_scenes as int,
        ),
        r <= MAGNITUDE_LIMIT,
{
    let nb_scenes = pb.instance.nb_scenes;
    let sel = x.1.union(y.1);
    let kept = x.0.intersect(y.0);
    let mut total: usize = 0;
    let mut s: usize = 0;
    while s < nb_scenes
        invariant
            s <= nb_scenes,
            sel@ == x.1@.union(y.1@),
            kept@ == x.0@.intersect(y.0@),
            total == loss_cost_below(*pb, sel@, kept@, s as int),
            total <= MAGNITUDE_LIMIT,
        decreases nb_scenes - s,
    {
        proof {
            lemma_loss_cost_bounds(*pb, sel@, kept@, s + 1);
            lemma_sum_prefix_bounds(pb.instance.duration@, s + 1);
            lemma_sum_prefix_bounds(pb.instance.cost@, pb.instance.nb_actors as int);
            assert(pb.instance.total_cost() * sum_prefix(pb.instance.duration@, s + 1)
                <= pb.instance.total_cost() * pb.instance.total_duration()) by (nonlinear_arith)
                requires
                    0 <= pb.instance.total_cost(),
                    sum_prefix(pb.instance.duration@, s + 1) <= pb.instance.total_duration(),
            ;
        }
        if sel.contains(s) {
            let cast = pb.actors[s].difference(kept);
            let c = pb.day_cost(cast, s);
            total = total + c;
        }
        s = s + 1;
    }
    total
}

/// The pairs already scanned when the scan stands at second index `j`,
/// first index `i`.
pub open spec fn scanned_before(p: int, q: int, j: int, i: int) -> bool {
    q < j || (q == j && p < i)
}

/// The pair of distinct clusters whose merge loses the least; ties go to
/// the smallest second index, then the smallest first.
fn best_merge_pair(pb: &TalentSched, clusters: &Vec<(BitSet64, BitSet64)>) -> (r: (usize, usize))
    requires
        pb.wf(),
        clusters.len() >= 2,
    ensures
        r.0 < r.1 < clusters.len(),
        forall|p: int, q: int|
            0 <= p < q < clusters.len() ==> pair_loss(*pb, clusters@, r.0 as int, r.1 as int)
                <= #[trigger] pair_loss(*pb, clusters@, p, q),
        forall|p: int, q: int|
            0 <= p < q < clusters.len() && #[trigger] pair_loss(*pb, clusters@, p, q) == pair_loss(
                *pb,
                clusters@,
                r.0 as int,
                r.1 as int,
            ) ==> (r.1 < q || (r.1 == q && r.0 <= p)),
{
    let len = clusters.len();
    let mut bi: usize = 0;
    let mut bj: usize = 1;
    let mut bl: usize = pair_loss_cost(pb, &clusters[0], &clusters[1]);
    let mut j: usize = 1;
    while j < len
        invariant
            1 <= j <= len,
            bi < bj < len,
            bl == pair_loss(*pb, clusters@, bi as int, bj as int),
            bj < j || (bi == 0 && bj == 1),
            forall|p: int, q: int|
                0 <= p < q < len && scanned_before(p, q, j as int, 0) ==> bl <= #[trigger] pair_loss(
                    *pb,
                    clusters@,
                    p,
                    q,
                ),
            forall|p: int, q: int|
                0 <= p < q < len && scanned_before(p, q, j as int, 0) && #[trigger] pair_loss(
                    *pb,
                    clusters@,
                    p,
                    q,
                ) == bl ==> (bj < q || (bj == q && bi <= p)),
        decreases len - j,
    {
        let mut i: usize = 0;
        while i < j
            invariant
                1 <= j < len,
                i <= j,
                bi < bj < len,
                bl == pair_loss(*pb, clusters@, bi as int, bj as int),
                bj < j || (bj == j && bi < i) || (bi == 0 && bj == 1),
                forall|p: int, q: int|
                    0 <= p < q < len && scanned_before(p, q, j as int, i as int) ==> bl
                        <= #[trigger] pair_loss(*pb, clusters@, p, q),
                forall|p: int, q: int|
                    0 <= p < q < len && scanned_before(p, q, j as int, i as int)
                        && #[trigger] pair_loss(*pb, clusters@, p, q) == bl ==> (bj < q || (bj == q
                        && bi <= p)),
            decreases j - i,
        {
            let l = pair_loss_cost(pb, &clusters[i], &clusters[j]);
            if l < bl {
                bi = i;
                bj = j;
                bl = l;
            }
            i = i + 1;
        }
        j = j + 1;
    }
    (bi, bj)
}

/// Cluster `c` of `cl` has at least one scene.
pub open spec fn has_member(cl: Seq<(BitSet64, BitSet64)>, c: int) -> bool {
    exists|i: int| #[trigger] cl[c].1@.contains(i)
}

/// Scene `i` lies in some cluster of `cl`.
pub open spec fn covered(cl: Seq<(BitSet64, BitSet64)>, i: int) -> bool {
    exists|c: int| 0 <= c < cl.len() && #[trigger] cl[c].1@.contains(i)
}

/// The invariant of the agglomerative loop: the member sets are nonempty
/// scene sets partitioning the scenes, and each cluster's actor set is
/// exactly the actors all its scenes require.
pub open spec fn clusters_wf(pb: TalentSched, cl: Seq<(BitSet64, BitSet64)>) -> bool {
    let s = pb.instance.nb_scenes as int;
    &&& forall|c: int| 0 <= c < cl.len() ==> #[trigger] has_member(cl, c)
    &&& forall|c: int, i: int| 0 <= c < cl.len() && #[trigger] cl[c].1@.contains(i) ==> 0 <= i < s
    &&& forall|c1: int, c2: int, i: int|
        #![trigger cl[c1].1@.contains(i), cl[c2].1@.contains(i)]
        0 <= c1 < c2 < cl.len() ==> !(cl[c1].1@.contains(i) && cl[c2].1@.contains(i))
    &&& forall|i: int| 0 <= i < s ==> #[trigger] covered(cl, i)
    &&& forall|c: int| 0 <= c < cl.len() ==> #[trigger] cl[c].0@ == cast_inter(pb, cl[c].1@)
}

/// The actors required by every scene of a union are those required by
/// every scene of both parts.
proof fn lemma_cast_inter_union(pb: TalentSched, m1: Set<int>, m2: Set<int>)
    ensures
        cast_inter(pb, m1.union(m2)) == cast_inter(pb, m1).intersect(cast_inter(pb, m2)),
{
    assert forall|a: int|
        cast_inter(pb, m1).intersect(cast_inter(pb, m2)).contains(a) implies cast_inter(
        pb,
        m1.union(m2),
    ).contains(a) by {
        assert forall|i: int| m1.union(m2).contains(i) implies pb.actors_of(i).contains(a) by {
            if m1.contains(i) {
                assert(cast_inter(pb, m1).contains(a));
            } else {
                assert(m2.contains(i));
                assert(cast_inter(pb, m2).contains(a));
            }
        }
    }
    assert forall|a: int|
        cast_inter(pb, m1.union(m2)).contains(a) implies cast_inter(pb, m1).intersect(
        cast_inter(pb, m2),
    ).contains(a) by {
        assert forall|i: int| m1.contains(i) implies pb.actors_of(i).contains(a) by {
            assert(m1.union(m2).contains(i));
        }
        assert forall|i: int| m2.contains(i) implies pb.actors_of(i).contains(a) by {
            assert(m1.union(m2).contains(i));
        }
    }
    assert(cast_inter(pb, m1.union(m2)) =~= cast_inter(pb, m1).intersect(cast_inter(pb, m2)));
}

/// Merging cluster `bj` into cluster `bi` keeps the partition invariant.
proof fn lemma_merge_clusters_wf(
    pb: TalentSched,
    old_cl: Seq<(BitSet64, BitSet64)>,
    new_cl: Seq<(BitSet64, BitSet64)>,
    bi: int,
    bj: int,
)
    requires
        clusters_wf(pb, old_cl),
        0 <= bi < bj < old_cl.len(),
        new_cl.len() == old_cl.len() - 1,
        forall|c: int| 0 <= c < bj && c != bi ==> #[trigger] new_cl[c] == old_cl[c],
        forall|c: int| bj <= c < new_cl.len() ==> #[trigger] new_cl[c] == old_cl[c + 1],
        new_cl[bi].0@ == old_cl[bi].0@.intersect(old_cl[bj].0@),
        new_cl[bi].1@ == old_cl[bi].1@.union(old_cl[bj].1@),
    ensures
        clusters_wf(pb, new_cl),
{
    let s = pb.instance.nb_scenes as int;
    let old_of = |c: int| if c < bj { c } else { c + 1 };
    assert forall|c: int| 0 <= c < new_cl.len() implies #[trigger] has_member(new_cl, c) by {
        if c == bi {
            assert(has_member(old_cl, bi));
            let i = choose|i: int| #[trigger] old_cl[bi].1@.contains(i);
            assert(new_cl[c].1@.contains(i));
        } else {
            let oc = if c < bj { c } else { c + 1 };
            assert(has_member(old_cl, oc));
            let i = choose|i: int| #[trigger] old_cl[oc].1@.contains(i);
            assert(new_cl[c].1@.contains(i));
        }
    }
    assert forall|c: int, i: int|
        0 <= c < new_cl.len() && #[trigger] new_cl[c].1@.contains(i) implies 0 <= i < s by {
        if c == bi {
            assert(old_cl[bi].1@.contains(i) || old_cl[bj].1@.contains(i));
        } else {
            let oc = if c < bj { c } else { c + 1 };
            assert(old_cl[oc].1@.contains(i));
        }
    }
    assert forall|c1: int, c2: int, i: int|
        #![trigger new_cl[c1].1@.contains(i), new_cl[c2].1@.contains(i)]
        0 <= c1 < c2 < new_cl.len() implies !(new_cl[c1].1@.contains(i)
        && new_cl[c2].1@.contains(i)) by {
        if new_cl[c1].1@.contains(i) && new_cl[c2].1@.contains(i) {
            let o1 = if c1 == bi { bi } else if c1 < bj { c1 } else { c1 + 1 };
            let o2 = if c2 == bi { bi } else if c2 < bj { c2 } else { c2 + 1 };
            if c1 == bi {
                assert(old_cl[bi].1@.contains(i) || old_cl[bj].1@.contains(i));
                assert(old_cl[o2].1@.contains(i));
                assert(o2 != bi && o2 != bj);
                assert(false);
            } else if c2 == bi {
                assert(old_cl[bi].1@.contains(i) || old_cl[bj].1@.contains(i));
                assert(old_cl[o1].1@.contains(i));
                assert(o1 != bi && o1 != bj);
                assert(false);
            } else {
                assert(old_cl[o1].1@.contains(i));
                assert(old_cl[o2].1@.contains(i));
                assert(o1 != o2);
                assert(false);
            }
        }
    }
    assert forall|i: int| 0 <= i < s implies #[trigger] covered(new_cl, i) by {
        assert(covered(old_cl, i));
        let oc = choose|c: int| 0 <= c < old_cl.len() && #[trigger] old_cl[c].1@.contains(i);
        if oc == bi || oc == bj {
            assert(new_cl[bi].1@.contains(i));
        } else if oc < bj {
            assert(new_cl[oc].1@.contains(i));
        } else {
            assert(new_cl[oc - 1].1@.contains(i));
        }
    }
    assert forall|c: int| 0 <= c < new_cl.len() implies #[trigger] new_cl[c].0@ == cast_inter(
        pb,
        new_cl[c].1@,
    ) by {
        if c == bi {
            lemma_cast_inter_union(pb, old_cl[bi].1@, old_cl[bj].1@);
        } else {
            let oc = if c < bj { c } else { c + 1 };
            assert(new_cl[c] == old_cl[oc]);
        }
    }
}

impl TalentSchedCompression {
    /// Groups the scenes into `n_meta_scenes` clusters by repeatedly merging
    /// the pair of clusters that loses the least actor-days, ties going to
    /// the first pair in scan order. Returns the cluster of each scene: a
    /// surjective map onto the cluster ids.
    pub fn cluster_scenes(pb: &TalentSched, n_meta_scenes: usize) -> (r: Vec<usize>)
        requires
            pb.wf(),
            1 <= n_meta_scenes <= pb.instance.nb_scenes,
        ensures
            r.len() == pb.instance.nb_scenes,
            forall|i: int| 0 <= i < r.len() ==> #[trigger] r[i] < n_meta_scenes,
            forall|c: int| 0 <= c < n_meta_scenes ==> #[trigger] cluster_used(r@, c),
    {
        let nb_scenes = pb.instance.nb_scenes;
        let mut clusters: Vec<(BitSet64, BitSet64)> = Vec::new();
        let mut i: usize = 0;
        while i < nb_scenes
            invariant
                i <= nb_scenes,
                clusters.len() == i,
                forall|c: int|
                    0 <= c < i ==> #[trigger] clusters[c].1@ == Set::<int>::empty().insert(c),
                forall|c: int| 0 <= c < i ==> #[trigger] clusters[c].0@ == pb.actors_of(c),
            decreases nb_scenes - i,
        {
            let single = BitSet64::empty().insert(i);
            clusters.push((pb.actors[i], single));
            i = i + 1;
        }
        proof {
            assert forall|c: int| 0 <= c < clusters@.len() implies #[trigger] clusters@[c].0@
                == cast_inter(*pb, clusters@[c].1@) by {
                assert forall|a: int|
                    clusters@[c].0@.contains(a) implies cast_inter(*pb, clusters@[c].1@).contains(
                    a,
                ) by {
                    assert(pb.actors_of(c).contains(a));
                    assert(pb.actors[c]@ == crate::model::required_actors(
                        pb.instance,
                        c,
                        pb.instance.nb_actors as int,
                    ));
                    assert forall|x: int|
                        clusters@[c].1@.contains(x) implies pb.actors_of(x).contains(a) by {
                        assert(x == c);
                    }
                }
                assert forall|a: int|
                    cast_inter(*pb, clusters@[c].1@).contains(a) implies clusters@[c].0@.contains(
                    a,
                ) by {
                    assert(clusters@[c].1@.contains(c));
                }
                assert(clusters@[c].0@ =~= cast_inter(*pb, clusters@[c].1@));
            }
            assert(clusters_wf(*pb, clusters@)) by {
                assert forall|c: int|
                    0 <= c < clusters@.len() implies #[trigger] has_member(clusters@, c) by {
                    assert(clusters@[c].1@.contains(c));
                }
                assert forall|i: int|
                    0 <= i < pb.instance.nb_scenes as int implies #[trigger] covered(
                    clusters@,
                    i,
                ) by {
                    assert(clusters@[i].1@.contains(i));
                }
            }
        }
        while clusters.len() > n_meta_scenes
            invariant
                n_meta_scenes <= clusters.len() <= nb_scenes,
                clusters_wf(*pb, clusters@),
            decreases clusters.len(),
        {
            let best = best_merge_pair(pb, &clusters);
            let bi = best.0;
            let bj = best.1;
            let ghost old_cl = clusters@;
            let pair = clusters.remove(bj);
            let kept = clusters[bi];
            let merged = (kept.0.intersect(pair.0), kept.1.union(pair.1));
            clusters.set(bi, merged);
            proof {
                assert forall|c: int| 0 <= c < bj && c != bi implies #[trigger] clusters@[c]
                    == old_cl[c] by {}
                assert forall|c: int| bj <= c < clusters@.len() implies #[trigger] clusters@[c]
                    == old_cl[c + 1] by {}
                lemma_merge_clusters_wf(*pb, old_cl, clusters@, bi as int, bj as int);
            }
        }
        let n_clusters = clusters.len();
        let mut membership: Vec<usize> = Vec::new();
        let mut i: usize = 0;
        while i < nb_scenes
            invariant
                i <= nb_scenes,
                membership.len() == i,
            decreases nb_scenes - i,
        {
            membership.push(0);
            i = i + 1;
        }
        let mut c: usize = 0;
        while c < n_clusters
            invariant
                c <= n_clusters,
                n_clusters == clusters.len() <= nb_scenes,
                n_clusters == n_meta_scenes,
                membership.len() == nb_scenes,
                clusters_wf(*pb, clusters@),
                forall|x: int, i: int|
                    0 <= x < c && #[trigger] clusters@[x].1@.contains(i) ==> membership@[i]
                        == x,
            decreases n_clusters - c,
        {
            let mut i: usize = 0;
            while i < nb_scenes
                invariant
                    i <= nb_scenes,
                    c < n_clusters == clusters.len() <= nb_scenes,
                    membership.len() == nb_scenes,
                    clusters_wf(*pb, clusters@),
                    forall|x: int, y: int|
                        0 <= x < c && #[trigger] clusters@[x].1@.contains(y) ==> membership@[y]
                            == x,
                    forall|y: int|
                        0 <= y < i && clusters@[c as int].1@.contains(y)
                            ==> #[trigger] membership@[y] == c,
                decreases nb_scenes - i,
            {
                if clusters[c].1.contains(i) {
                    membership.set(i, c);
                    proof {
                        assert forall|x: int, y: int|
                            0 <= x < c && #[trigger] clusters@[x].1@.contains(y)
                                implies membership@[y] == x by {
                            assert(y != i as int);
                        }
                    }
                }
                i = i + 1;
            }
            c = c + 1;
        }
        proof {
            assert forall|i: int| 0 <= i < membership@.len() implies #[trigger] membership@[i]
                < n_meta_scenes by {
                assert(covered(clusters@, i));
                let cc = choose|cc: int|
                    0 <= cc < clusters@.len() && #[trigger] clusters@[cc].1@.contains(i);
                assert(membership@[i] == cc);
            }
            assert forall|c: int| 0 <= c < n_meta_scenes implies #[trigger] cluster_used(
                membership@,
                c,
            ) by {
                assert(has_member(clusters@, c));
                let i = choose|i: int| #[trigger] clusters@[c].1@.contains(i);
                assert(membership@[i] == c);
            }
        }
        membership
    }
}

/// An exact copy of a cost vector.
fn copy_costs(v: &Vec<usize>) -> (r: Vec<usize>)
    ensures
        r@ == v@,
{
    let mut r: Vec<usize> = Vec::new();
    let mut i: usize = 0;
    while i < v.len()
        invariant
            i <= v.len(),
            r@ == v@.subrange(0, i as int),
        decreases v.len() - i,
    {
        r.push(v[i]);
        proof {
            assert(r@ =~= v@.subrange(0, i + 1));
        }
        i = i + 1;
    }
    proof {
        assert(v@.subrange(0, v@.len() as int) =~= v@);
    }
    r
}

impl TalentSchedCompression {
    /// Builds the compression of `problem` onto `n_meta_scenes` clusters:
    /// clusters the scenes, contracts the instance to the meta problem, and
    /// records each cluster's member set and size.
    pub fn new(problem: TalentSched, n_meta_scenes: usize) -> (r: Self)
        requires
            problem.wf(),
            1 <= n_meta_scenes <= problem.instance.nb_scenes,
        ensures
            r.wf(),
            r.problem == problem,
            r.nb_clusters() == n_meta_scenes,
    {
        let nb_scenes = problem.instance.nb_scenes;
        let membership = Self::cluster_scenes(&problem, n_meta_scenes);
        let duration = compute_meta_duration(&problem, &membership, n_meta_scenes);
        let actors = compute_meta_actors(&problem, &membership, n_meta_scenes);
        let cost = copy_costs(&problem.instance.cost);
        let meta_instance = TalentSchedInstance {
            nb_scenes: n_meta_scenes,
            nb_actors: problem.instance.nb_actors,
            cost,
            duration,
            actors,
        };
        proof {
            assert forall|c: int|
                0 <= c < n_meta_scenes implies #[trigger] meta_instance.duration[c] >= 1 by {
                assert(cluster_used(membership@, c));
                let i = choose|i: int|
                    0 <= i < membership@.len() && #[trigger] membership@[i] == c;
                assert(member_set(membership@, c).contains(i));
                lemma_duration_sum_ge_elem(problem, member_set(membership@, c), nb_scenes as int, i);
            }
            assert(meta_instance.wf());
        }
        let meta_problem = TalentSched::new(meta_instance);
        let mut members: Vec<BitSet64> = Vec::new();
        let mut size: Vec<usize> = Vec::new();
        let mut c: usize = 0;
        while c < n_meta_scenes
            invariant
                c <= n_meta_scenes,
                members.len() == c,
                size.len() == c,
                forall|x: int| 0 <= x < c ==> #[trigger] members[x]@ == Set::<int>::empty(),
                forall|x: int| 0 <= x < c ==> #[trigger] size[x] == 0,
                sum_prefix(size@, c as int) == 0,
            decreases n_meta_scenes - c,
        {
            members.push(BitSet64::empty());
            let ghost prev = size@;
            size.push(0);
            proof {
                lemma_sum_prefix_agree(size@, prev, c as int);
            }
            c = c + 1;
        }
        proof {
            assert forall|x: int| 0 <= x < n_meta_scenes implies #[trigger] prefix_member_set(
                membership@,
                x,
                0,
            ) =~= Set::<int>::empty() by {}
            assert(Set::<int>::empty().finite());
        }
        let mut i: usize = 0;
        while i < nb_scenes
            invariant
                i <= nb_scenes,
                members.len() == n_meta_scenes,
                size.len() == n_meta_scenes,
                membership.len() == nb_scenes,
                forall|x: int| 0 <= x < membership.len() ==> #[trigger] membership[x] < n_meta_scenes,
                forall|x: int|
                    0 <= x < n_meta_scenes ==> #[trigger] members[x]@ == prefix_member_set(
                        membership@,
                        x,
                        i as int,
                    ),
                forall|x: int|
                    0 <= x < n_meta_scenes ==> #[trigger] size[x] == prefix_member_set(
                        membership@,
                        x,
                        i as int,
                    ).len(),
                seq_sum(size@) == i,
            decreases nb_scenes - i,
        {
            let j = membership[i];
            proof {
                lemma_prefix_member_set_finite(membership@, j as int, i as int);
                lemma_prefix_member_set_finite(membership@, j as int, i + 1);
                lemma_sum_prefix_ge_elem(size@, n_meta_scenes as int, j as int);
                lemma_sum_prefix_update(size@, j as int, (size[j as int] + 1) as usize,
                    n_meta_scenes as int);
            }
            let m = members[j].insert(i);
            members.set(j, m);
            let v = size[j] + 1;
            size.set(j, v);
            proof {
                assert forall|x: int|
                    0 <= x < n_meta_scenes implies #[trigger] members[x]@ == prefix_member_set(
                    membership@,
                    x,
                    i + 1,
                ) by {
                    if x == j as int {
                        assert(members[x]@ =~= prefix_member_set(membership@, x, i + 1));
                    } else {
                        assert(prefix_member_set(membership@, x, i + 1) =~= prefix_member_set(
                            membership@,
                            x,
                            i as int,
                        ));
                    }
                }
                assert forall|x: int|
                    0 <= x < n_meta_scenes implies #[trigger] size[x] == prefix_member_set(
                    membership@,
                    x,
                    i + 1,
                ).len() by {
                    if x == j as int {
                        assert(!prefix_member_set(membership@, x, i as int).contains(i as int));
                        assert(prefix_member_set(membership@, x, i + 1) =~= prefix_member_set(
                            membership@,
                            x,
                            i as int,
                        ).insert(i as int));
                    } else {
                        assert(prefix_member_set(membership@, x, i + 1) =~= prefix_member_set(
                            membership@,
                            x,
                            i as int,
                        ));
                    }
                }
            }
            i = i + 1;
        }
        proof {
            assert forall|x: int|
                0 <= x < n_meta_scenes implies #[trigger] prefix_member_set(
                membership@,
                x,
                nb_scenes as int,
            ) == member_set(membership@, x) by {
                assert(prefix_member_set(membership@, x, nb_scenes as int) =~= member_set(
                    membership@,
                    x,
                ));
            }
            assert forall|x: int| 0 <= x < n_meta_scenes implies #[trigger] size@[x] >= 1 by {
                assert(cluster_used(membership@, x));
                let i = choose|i: int|
                    0 <= i < membership@.len() && #[trigger] membership@[i] == x;
                assert(member_set(membership@, x).contains(i));
                lemma_prefix_member_set_finite(membership@, x, nb_scenes as int);
                assert(Set::<int>::empty().insert(i).subset_of(member_set(membership@, x)));
                vstd::set_lib::lemma_len_subset(
                    Set::<int>::empty().insert(i),
                    member_set(membership@, x),
                );
            }
        }
        TalentSchedCompression { problem, meta_problem, membership, members, size }
    }
}

/// The scenes among the first `n` that `membership` assigns to cluster `c`.
pub open spec fn prefix_member_set(membership: Seq<usize>, c: int, n: int) -> Set<int> {
    Set::new(|i: int| 0 <= i < n && i < membership.len() && membership[i] == c)
}

/// A prefix member set is finite.
proof fn lemma_prefix_member_set_finite(membership: Seq<usize>, c: int, n: int)
    requires
        0 <= n,
    ensures
        prefix_member_set(membership, c, n).finite(),
        prefix_member_set(membership, c, n).len() <= n,
{
    let rng = vstd::set_lib::set_int_range(0, n);
    vstd::set_lib::lemma_int_range(0, n);
    assert(prefix_member_set(membership, c, n).subset_of(rng));
    vstd::set_lib::lemma_len_subset(prefix_member_set(membership, c, n), rng);
}

/// Mapping scene ids to their mathematical values commutes with appending.
proof fn lemma_map_values_push_usize(s: Seq<usize>, v: usize)
    ensures
        (s.push(v)).map_values(|x: usize| x as int) == s.map_values(|x: usize| x as int).push(
            v as int,
        ),
{
    assert((s.push(v)).map_values(|x: usize| x as int) =~= s.map_values(|x: usize| x as int).push(
        v as int,
    ));
}

/// The candidates among the first `k` of `domain` that belong to cluster
/// `c`, in their domain order.
pub open spec fn candidates_of_cluster(
    membership: Seq<usize>,
    domain: Seq<usize>,
    c: int,
    k: int,
) -> Seq<int>
    decreases k,
{
    if k <= 0 {
        Seq::empty()
    } else {
        candidates_of_cluster(membership, domain, c, k - 1) + if 0 <= domain[k - 1]
            < membership.len() && membership[domain[k - 1] as int] == c {
            seq![domain[k - 1] as int]
        } else {
            Seq::<int>::empty()
        }
    }
}

/// Position `p` is the first appearance of its cluster in the meta order.
pub open spec fn first_occurrence(meta_order: Seq<usize>, p: int) -> bool {
    forall|q: int| 0 <= q < p ==> meta_order[q] != meta_order[p]
}

/// The candidates of `domain` regrouped cluster by cluster, clusters taken
/// in the order of their first appearance in the first `p` meta decisions.
pub open spec fn ordered_by_clusters(
    membership: Seq<usize>,
    domain: Seq<usize>,
    meta_order: Seq<usize>,
    p: int,
) -> Seq<int>
    decreases p,
{
    if p <= 0 {
        Seq::empty()
    } else {
        ordered_by_clusters(membership, domain, meta_order, p - 1) + if first_occurrence(
            meta_order,
            p - 1,
        ) {
            candidates_of_cluster(membership, domain, meta_order[p - 1] as int, domain.len() as int)
        } else {
            Seq::<int>::empty()
        }
    }
}

/// The first `k` candidates of `domain` whose cluster the meta order never
/// schedules, in their domain order.
pub open spec fn candidates_outside(
    membership: Seq<usize>,
    domain: Seq<usize>,
    meta_order: Seq<usize>,
    k: int,
) -> Seq<int>
    decreases k,
{
    if k <= 0 {
        Seq::empty()
    } else {
        candidates_outside(membership, domain, meta_order, k - 1) + if 0 <= domain[k - 1]
            < membership.len() && !meta_order.contains(membership[domain[k - 1] as int]) {
            seq![domain[k - 1] as int]
        } else {
            Seq::<int>::empty()
        }
    }
}

impl TalentSchedCompression {
    /// The decision ordering heuristic: reorders the candidate values of a
    /// state so that scenes of one cluster stay contiguous and clusters
    /// follow the given meta solution; candidates of clusters the meta
    /// solution never schedules keep their domain order at the end.
    pub fn order_candidates(&self, domain: &Vec<usize>, meta_order: &Vec<usize>) -> (r: Vec<usize>)
        requires
            self.wf(),
            forall|x: int|
                0 <= x < domain.len() ==> #[trigger] domain[x] < self.problem.instance.nb_scenes,
        ensures
            r@.map_values(|x: usize| x as int) == ordered_by_clusters(
                self.membership@,
                domain@,
                meta_order@,
                meta_order.len() as int,
            ) + candidates_outside(
                self.membership@,
                domain@,
                meta_order@,
                domain.len() as int,
            ),
    {
        let mut r: Vec<usize> = Vec::new();
        let mut p: usize = 0;
        proof {
            assert(r@.map_values(|x: usize| x as int) =~= ordered_by_clusters(
                self.membership@,
                domain@,
                meta_order@,
                0,
            ));
        }
        while p < meta_order.len()
            invariant
                p <= meta_order.len(),
                r@.map_values(|x: usize| x as int) == ordered_by_clusters(
                    self.membership@,
                    domain@,
                    meta_order@,
                    p as int,
                ),
            decreases meta_order.len() - p,
        {
            let c = meta_order[p];
            let mut fresh = true;
            let mut q: usize = 0;
            while q < p
                invariant
                    q <= p < meta_order.len(),
                    c == meta_order[p as int],
                    fresh <==> forall|y: int| 0 <= y < q ==> meta_order[y] != c,
                decreases p - q,
            {
                if meta_order[q] == c {
                    fresh = false;
                }
                q = q + 1;
            }
            if fresh {
                let ghost base = r@.map_values(|x: usize| x as int);
                let mut x: usize = 0;
                proof {
                    assert(r@.map_values(|x: usize| x as int) =~= base + candidates_of_cluster(
                        self.membership@,
                        domain@,
                        c as int,
                        0,
                    ));
                }
                while x < domain.len()
                    invariant
                        x <= domain.len(),
                        c == meta_order[p as int],
                        r@.map_values(|x: usize| x as int) == base + candidates_of_cluster(
                            self.membership@,
                            domain@,
                            c as int,
                            x as int,
                        ),
                    decreases domain.len() - x,
                {
                    let value = domain[x];
                    if self.membership[value] == c {
                        let ghost before = r@;
                        r.push(value);
                        proof {
                            lemma_map_values_push_usize(before, value);
                        }
                    }
                    proof {
                        assert(r@.map_values(|x: usize| x as int) =~= base + candidates_of_cluster(
                            self.membership@,
                            domain@,
                            c as int,
                            x + 1,
                        ));
                    }
                    x = x + 1;
                }
            }
            p = p + 1;
        }
        let ghost grouped = r@.map_values(|x: usize| x as int);
        let mut x: usize = 0;
        proof {
            assert(r@.map_values(|x: usize| x as int) =~= grouped + candidates_outside(
                self.membership@,
                domain@,
                meta_order@,
                0,
            ));
        }
        while x < domain.len()
            invariant
                x <= domain.len(),
                r@.map_values(|x: usize| x as int) == grouped + candidates_outside(
                    self.membership@,
                    domain@,
                    meta_order@,
                    x as int,
                ),
            decreases domain.len() - x,
        {
            let value = domain[x];
            let cluster = self.membership[value];
            let mut listed = false;
            let mut q: usize = 0;
            while q < meta_order.len()
                invariant
                    q <= meta_order.len(),
                    cluster == self.membership[domain[x as int] as int],
                    listed <==> exists|y: int| 0 <= y < q && #[trigger] meta_order[y] == cluster,
                decreases meta_order.len() - q,
            {
                if meta_order[q] == cluster {
                    listed = true;
                }
                q = q + 1;
            }
            if !listed {
                let ghost before = r@;
                r.push(value);
                proof {
                    lemma_map_values_push_usize(before, value);
                }
            }
            proof {
                assert(listed <==> meta_order@.contains(cluster));
                assert(r@.map_values(|x: usize| x as int) =~= grouped + candidates_outside(
                    self.membership@,
                    domain@,
                    meta_order@,
                    x + 1,
                ));
            }
            x = x + 1;
        }
        r
    }
}

} // verus!
