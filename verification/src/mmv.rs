//! The rename planner and executor.
//!
//! A mapping of source paths to destination paths is validated, cleaned,
//! and turned into an ordered list of primitive rename edges. Chains are
//! emitted tail first so every destination is free when its turn comes;
//! cycles are broken by displacing one node to a freshly generated
//! temporary sibling path. Execution applies the edges in order through
//! caller-supplied filesystem operations, creating missing destination
//! directories on demand and rolling the applied prefix back when an edge
//! fails.

use vstd::prelude::*;

use crate::filepath::clean;
use crate::filepath::clean_spec;
use crate::ioutils::next_random;
use crate::ioutils::RandomPathGenerator;
use vstd::seq_lib::lemma_no_dup_in_concat;

verus! {

/// One primitive rename: `src` moves to `dst`.
#[derive(Debug, Clone, PartialEq, Eq)]
pub struct Edge {
    pub src: String,
    pub dst: String,
}

impl View for Edge {
    type V = (Seq<char>, Seq<char>);

    open spec fn view(&self) -> (Seq<char>, Seq<char>) {
        (self.src@, self.dst@)
    }
}

/// Why a mapping cannot be planned. All of these are found before any
/// filesystem mutation.
#[derive(Debug, Clone, PartialEq, Eq)]
pub enum PlanError {
    /// A source or destination is the empty string.
    EmptyPath,
    /// Two entries share this cleaned source.
    DuplicateSource(String),
    /// Two entries share this cleaned destination.
    DuplicateDestination(String),
}

impl PlanError {
    /// Human-readable error text, naming the offending path.
    pub fn message(&self) -> (r: String)
        ensures
            self is EmptyPath ==> r@ == "Path cannot be empty."@,
            forall|p: String| *self == PlanError::DuplicateSource(p) ==> r@ == "Duplicate source "@
                + p@,
            forall|p: String|
                *self == PlanError::DuplicateDestination(p) ==> r@ == "Duplicate destination "@
                    + p@,
    {
        match self {
            PlanError::EmptyPath => {
                let mut s = String::new();
                s.append("Path cannot be empty.");
                proof {
                    assert(s@ =~= "Path cannot be empty."@);
                }
                s
            },
            PlanError::DuplicateSource(p) => {
                let mut s = String::new();
                s.append("Duplicate source ");
                s.append(p.as_str());
                proof {
                    assert(s@ =~= "Duplicate source "@ + p@);
                }
                s
            },
            PlanError::DuplicateDestination(p) => {
                let mut s = String::new();
                s.append("Duplicate destination ");
                s.append(p.as_str());
                proof {
                    assert(s@ =~= "Duplicate destination "@ + p@);
                }
                s
            },
        }
    }
}

// ---------------------------------------------------------------------------
// Views of mappings, and validation.
// ---------------------------------------------------------------------------

/// The character sequences of a list of path pairs.
pub open spec fn pair_views(ps: Seq<(String, String)>) -> Seq<(Seq<char>, Seq<char>)> {
    ps.map_values(|p: (String, String)| (p.0@, p.1@))
}

/// Every pair cleaned on both sides.
pub open spec fn cleaned_views(vs: Seq<(Seq<char>, Seq<char>)>) -> Seq<(Seq<char>, Seq<char>)> {
    vs.map_values(|p: (Seq<char>, Seq<char>)| (clean_spec(p.0), clean_spec(p.1)))
}

/// The surviving entries: cleaned pairs that are not self-mappings.
pub open spec fn live_views(cs: Seq<(Seq<char>, Seq<char>)>) -> Seq<(Seq<char>, Seq<char>)> {
    cs.filter(|p: (Seq<char>, Seq<char>)| p.0 != p.1)
}

/// Entry `i` names an empty source or destination.
pub open spec fn empty_at(vs: Seq<(Seq<char>, Seq<char>)>, i: int) -> bool {
    vs[i].0.len() == 0 || vs[i].1.len() == 0
}

/// Entry `i` repeats an earlier cleaned source.
pub open spec fn dup_src_at(cs: Seq<(Seq<char>, Seq<char>)>, i: int) -> bool {
    exists|j: int| 0 <= j < i && (#[trigger] cs[j]).0 == cs[i].0
}

/// Entry `i` repeats an earlier cleaned destination.
pub open spec fn dup_dst_at(cs: Seq<(Seq<char>, Seq<char>)>, i: int) -> bool {
    exists|j: int| 0 <= j < i && (#[trigger] cs[j]).1 == cs[i].1
}

/// Entry `i` is rejected by validation.
pub open spec fn bad_at(vs: Seq<(Seq<char>, Seq<char>)>, i: int) -> bool {
    ||| empty_at(vs, i)
    ||| dup_src_at(cleaned_views(vs), i)
    ||| dup_dst_at(cleaned_views(vs), i)
}

/// The whole mapping passes validation.
pub open spec fn mapping_ok(vs: Seq<(Seq<char>, Seq<char>)>) -> bool {
    forall|i: int| 0 <= i < vs.len() ==> !bad_at(vs, i)
}

/// The error reported for the first rejected entry `i`: an empty path
/// before a duplicated source before a duplicated destination.
pub open spec fn plan_error_matches(e: PlanError, vs: Seq<(Seq<char>, Seq<char>)>, i: int) -> bool {
    let cs = cleaned_views(vs);
    if empty_at(vs, i) {
        e is EmptyPath
    } else if dup_src_at(cs, i) {
        e matches PlanError::DuplicateSource(p) && p@ == cs[i].0
    } else {
        e matches PlanError::DuplicateDestination(p) && p@ == cs[i].1
    }
}

/// No two entries share a source.
pub open spec fn src_unique(ms: Seq<(Seq<char>, Seq<char>)>) -> bool {
    forall|i: int, j: int|
        0 <= i < j < ms.len() ==> (#[trigger] ms[i]).0 != (#[trigger] ms[j]).0
}

/// No two entries share a destination.
pub open spec fn dst_unique(ms: Seq<(Seq<char>, Seq<char>)>) -> bool {
    forall|i: int, j: int|
        0 <= i < j < ms.len() ==> (#[trigger] ms[i]).1 != (#[trigger] ms[j]).1
}

/// No entry maps a path to itself.
pub open spec fn no_self(ms: Seq<(Seq<char>, Seq<char>)>) -> bool {
    forall|i: int| 0 <= i < ms.len() ==> (#[trigger] ms[i]).0 != ms[i].1
}

/// Whether some earlier cleaned entry already uses source `key`.
fn contains_src(cleaned: &Vec<(String, String)>, key: &String) -> (r: bool)
    ensures
        r == exists|j: int|
            0 <= j < cleaned@.len() && (#[trigger] pair_views(cleaned@)[j]).0 == key@,
{
    let mut j: usize = 0;
    while j < cleaned.len()
        invariant
            j <= cleaned@.len(),
            forall|t: int| 0 <= t < j ==> (#[trigger] pair_views(cleaned@)[t]).0 != key@,
        decreases cleaned@.len() - j,
    {
        if cleaned[j].0 == *key {
            proof {
                assert((pair_views(cleaned@)[j as int]).0 == key@);
            }
            return true;
        }
        j += 1;
    }
    false
}

/// Whether some earlier cleaned entry already uses destination `key`.
fn contains_dst(cleaned: &Vec<(String, String)>, key: &String) -> (r: bool)
    ensures
        r == exists|j: int|
            0 <= j < cleaned@.len() && (#[trigger] pair_views(cleaned@)[j]).1 == key@,
{
    let mut j: usize = 0;
    while j < cleaned.len()
        invariant
            j <= cleaned@.len(),
            forall|t: int| 0 <= t < j ==> (#[trigger] pair_views(cleaned@)[t]).1 != key@,
        decreases cleaned@.len() - j,
    {
        if cleaned[j].1 == *key {
            proof {
                assert((pair_views(cleaned@)[j as int]).1 == key@);
            }
            return true;
        }
        j += 1;
    }
    false
}

/// Validates the mapping and returns the cleaned surviving entries, in
/// input order: every path cleaned, self-mappings dropped, and the first
/// empty or duplicated entry reported as the error.
fn validate(files: &Vec<(String, String)>) -> (r: Result<Vec<(String, String)>, PlanError>)
    ensures
        ({
            let vs = pair_views(files@);
            match r {
                Ok(live) => {
                    &&& mapping_ok(vs)
                    &&& pair_views(live@) == live_views(cleaned_views(vs))
                    &&& src_unique(pair_views(live@))
                    &&& dst_unique(pair_views(live@))
                    &&& no_self(pair_views(live@))
                },
                Err(e) => exists|i: int|
                    0 <= i < vs.len() && #[trigger] bad_at(vs, i) && (forall|k: int|
                        0 <= k < i ==> !bad_at(vs, k)) && plan_error_matches(e, vs, i),
            }
        }),
{
    let ghost vs = pair_views(files@);
    let ghost cs = cleaned_views(vs);
    let mut cleaned: Vec<(String, String)> = Vec::new();
    let mut live: Vec<(String, String)> = Vec::new();
    let mut idx: usize = 0;
    proof {
        assert(pair_views(cleaned@) =~= cs.take(0));
        assert(live_views(cs.take(0)) =~= Seq::<(Seq<char>, Seq<char>)>::empty());
        assert(pair_views(live@) =~= Seq::<(Seq<char>, Seq<char>)>::empty());
    }
    while idx < files.len()
        invariant
            vs == pair_views(files@),
            cs == cleaned_views(vs),
            vs.len() == files@.len(),
            cs.len() == vs.len(),
            idx <= files@.len(),
            pair_views(cleaned@) == cs.take(idx as int),
            cleaned@.len() == idx,
            pair_views(live@) == live_views(cs.take(idx as int)),
            forall|k: int| 0 <= k < idx ==> !bad_at(vs, k),
            forall|t: int|
                0 <= t < live@.len() ==> exists|j: int|
                    0 <= j < idx && #[trigger] pair_views(live@)[t] == cs[j],
            src_unique(pair_views(live@)),
            dst_unique(pair_views(live@)),
            no_self(pair_views(live@)),
        decreases files@.len() - idx,
    {
        proof {
            assert(vs[idx as int] == (files@[idx as int].0@, files@[idx as int].1@));
            assert(cs[idx as int] == (clean_spec(vs[idx as int].0), clean_spec(vs[idx as int].1)));
        }
        if files[idx].0.as_str().unicode_len() == 0 || files[idx].1.as_str().unicode_len() == 0 {
            proof {
                assert(empty_at(vs, idx as int));
                assert(bad_at(vs, idx as int));
            }
            return Err(PlanError::EmptyPath);
        }
        let csrc = clean(files[idx].0.as_str());
        let cdst = clean(files[idx].1.as_str());
        if contains_src(&cleaned, &csrc) {
            proof {
                assert(dup_src_at(cs, idx as int)) by {
                    let j = choose|j: int|
                        0 <= j < cleaned@.len() && (#[trigger] pair_views(cleaned@)[j]).0 == csrc@;
                    assert(cs[j] == pair_views(cleaned@)[j]);
                }
                assert(bad_at(vs, idx as int));
            }
            return Err(PlanError::DuplicateSource(csrc));
        }
        if contains_dst(&cleaned, &cdst) {
            proof {
                assert(dup_dst_at(cs, idx as int)) by {
                    let j = choose|j: int|
                        0 <= j < cleaned@.len() && (#[trigger] pair_views(cleaned@)[j]).1 == cdst@;
                    assert(cs[j] == pair_views(cleaned@)[j]);
                }
                assert(!empty_at(vs, idx as int));
                assert(!dup_src_at(cs, idx as int)) by {
                    assert(forall|j: int|
                        0 <= j < idx ==> (#[trigger] cs[j]).0 == pair_views(cleaned@)[j].0);
                }
                assert(bad_at(vs, idx as int));
            }
            return Err(PlanError::DuplicateDestination(cdst));
        }
        proof {
            assert(!bad_at(vs, idx as int)) by {
                assert(forall|j: int|
                    0 <= j < idx ==> #[trigger] cs[j] == pair_views(cleaned@)[j]);
            }
        }
        let ghost old_live = live@;
        let self_map = csrc == cdst;
        cleaned.push((csrc.clone(), cdst.clone()));
        if !self_map {
            live.push((csrc, cdst));
        }
        idx += 1;
        proof {
            assert(pair_views(cleaned@) =~= cs.take(idx as int));
            assert(cs.take(idx as int) =~= cs.take(idx - 1) + seq![cs[idx - 1]]);
            Seq::filter_distributes_over_add(
                cs.take(idx - 1),
                seq![cs[idx - 1]],
                |p: (Seq<char>, Seq<char>)| p.0 != p.1,
            );
            reveal_with_fuel(Seq::filter, 2);
            if !self_map {
                assert(seq![cs[idx - 1]].filter(|p: (Seq<char>, Seq<char>)| p.0 != p.1)
                    =~= seq![cs[idx - 1]]);
                assert(pair_views(live@) =~= pair_views(old_live).push(cs[idx - 1]));
                assert(pair_views(live@) == live_views(cs.take(idx as int)));
                let lv = pair_views(live@);
                assert forall|t: int, u: int|
                    0 <= t < u < lv.len() implies (#[trigger] lv[t]).0 != (#[trigger] lv[u]).0 by {
                    if u == lv.len() - 1 {
                        let j = choose|j: int|
                            0 <= j < idx - 1 && #[trigger] pair_views(old_live)[t] == cs[j];
                        assert(!dup_src_at(cs, idx - 1));
                        assert(cs[j].0 != cs[idx - 1].0);
                    }
                }
                assert forall|t: int, u: int|
                    0 <= t < u < lv.len() implies (#[trigger] lv[t]).1 != (#[trigger] lv[u]).1 by {
                    if u == lv.len() - 1 {
                        let j = choose|j: int|
                            0 <= j < idx - 1 && #[trigger] pair_views(old_live)[t] == cs[j];
                        assert(!dup_dst_at(cs, idx - 1));
                        assert(cs[j].1 != cs[idx - 1].1);
                    }
                }
            } else {
                assert(seq![cs[idx - 1]].filter(|p: (Seq<char>, Seq<char>)| p.0 != p.1)
                    =~= Seq::<(Seq<char>, Seq<char>)>::empty());
                assert(live_views(cs.take(idx as int)) =~= live_views(cs.take(idx - 1)));
            }
        }
    }
    proof {
        assert(cs.take(idx as int) =~= cs);
    }
    Ok(live)
}

// ---------------------------------------------------------------------------
// The rename graph: entries linked source-to-destination, decomposed into
// chains and cycles.
// ---------------------------------------------------------------------------

/// Entry `j` continues entry `i`: the destination of `i` is the source of
/// `j`.
pub open spec fn is_next(ms: Seq<(Seq<char>, Seq<char>)>, i: int, j: int) -> bool {
    0 <= i < ms.len() && 0 <= j < ms.len() && ms[i].1 == ms[j].0
}

/// Some entry continues entry `i`.
pub open spec fn has_next(ms: Seq<(Seq<char>, Seq<char>)>, i: int) -> bool {
    exists|j: int| is_next(ms, i, j)
}

/// Some entry leads into entry `j`.
pub open spec fn has_prev(ms: Seq<(Seq<char>, Seq<char>)>, j: int) -> bool {
    exists|i: int| is_next(ms, i, j)
}

/// All members of `g` index into `ms`.
pub open spec fn group_in_range(ms: Seq<(Seq<char>, Seq<char>)>, g: Seq<int>) -> bool {
    forall|t: int| 0 <= t < g.len() ==> 0 <= #[trigger] g[t] < ms.len()
}

/// Consecutive members of `g` are linked in the graph.
pub open spec fn group_linked(ms: Seq<(Seq<char>, Seq<char>)>, g: Seq<int>) -> bool {
    forall|t: int| 0 <= t < g.len() - 1 ==> is_next(ms, #[trigger] g[t], g[t + 1])
}

/// `g` walks a whole chain: linked entries with nothing before the head
/// and nothing after the tail.
pub open spec fn is_chain_group(ms: Seq<(Seq<char>, Seq<char>)>, g: Seq<int>) -> bool {
    &&& g.len() > 0
    &&& group_in_range(ms, g)
    &&& group_linked(ms, g)
    &&& !has_prev(ms, g[0])
    &&& !has_next(ms, g[g.len() - 1])
}

/// `g` walks a whole cycle: linked entries whose tail links back to the
/// head.
pub open spec fn is_cycle_group(ms: Seq<(Seq<char>, Seq<char>)>, g: Seq<int>) -> bool {
    &&& g.len() >= 2
    &&& group_in_range(ms, g)
    &&& group_linked(ms, g)
    &&& is_next(ms, g[g.len() - 1], g[0])
}

/// A chain emits its entries' own renames, tail first, so each
/// destination is still free when its rename runs.
pub open spec fn chain_edges(ms: Seq<(Seq<char>, Seq<char>)>, g: Seq<int>) -> Seq<
    (Seq<char>, Seq<char>),
> {
    Seq::new(g.len(), |t: int| ms[g[g.len() - 1 - t]])
}

/// A cycle first vacates the re-entry node to the temporary path `tmp`,
/// then emits the other renames walking backward, and closes by moving
/// `tmp` into the vacated place's former successor.
pub open spec fn cycle_edges(ms: Seq<(Seq<char>, Seq<char>)>, g: Seq<int>, tmp: Seq<char>) -> Seq<
    (Seq<char>, Seq<char>),
> {
    seq![(ms[g[0]].1, tmp)] + Seq::new(
        (g.len() - 1) as nat,
        |t: int|
            if t == 0 {
                ms[g[0]]
            } else {
                ms[g[g.len() - t]]
            },
    ) + seq![(tmp, ms[g[1]].1)]
}

/// Every group of the decomposition `ds` is a chain or a cycle, as its
/// flag says.
pub open spec fn groups_wf(
    ms: Seq<(Seq<char>, Seq<char>)>,
    ds: Seq<(bool, Seq<int>, Seq<char>)>,
) -> bool {
    forall|t: int|
        0 <= t < ds.len() ==> if (#[trigger] ds[t]).0 {
            is_cycle_group(ms, ds[t].1)
        } else {
            is_chain_group(ms, ds[t].1)
        }
}

/// All entry indices of the decomposition, in order.
pub open spec fn groups_entries(ds: Seq<(bool, Seq<int>, Seq<char>)>) -> Seq<int>
    decreases ds.len(),
{
    if ds.len() == 0 {
        Seq::empty()
    } else {
        groups_entries(ds.drop_last()) + ds.last().1
    }
}

/// The decomposition covers every entry of `ms` exactly once.
pub open spec fn groups_partition(
    ms: Seq<(Seq<char>, Seq<char>)>,
    ds: Seq<(bool, Seq<int>, Seq<char>)>,
) -> bool {
    &&& groups_entries(ds).no_duplicates()
    &&& forall|x: int| groups_entries(ds).contains(x) ==> 0 <= x < ms.len()
    &&& forall|x: int| 0 <= x < ms.len() ==> groups_entries(ds).contains(x)
}

/// The edges of the whole decomposition, group after group.
pub open spec fn groups_edges(
    ms: Seq<(Seq<char>, Seq<char>)>,
    ds: Seq<(bool, Seq<int>, Seq<char>)>,
) -> Seq<(Seq<char>, Seq<char>)>
    decreases ds.len(),
{
    if ds.len() == 0 {
        Seq::empty()
    } else {
        groups_edges(ms, ds.drop_last()) + (if ds.last().0 {
            cycle_edges(ms, ds.last().1, ds.last().2)
        } else {
            chain_edges(ms, ds.last().1)
        })
    }
}

/// Chain length, or cycle length plus one, summed over the groups.
pub open spec fn groups_edge_total(ds: Seq<(bool, Seq<int>, Seq<char>)>) -> int
    decreases ds.len(),
{
    if ds.len() == 0 {
        0int
    } else {
        groups_edge_total(ds.drop_last()) + ds.last().1.len() + if ds.last().0 {
            1int
        } else {
            0int
        }
    }
}

/// How many groups are cycles.
pub open spec fn groups_cycle_count(ds: Seq<(bool, Seq<int>, Seq<char>)>) -> int
    decreases ds.len(),
{
    if ds.len() == 0 {
        0int
    } else {
        groups_cycle_count(ds.drop_last()) + if ds.last().0 {
            1int
        } else {
            0int
        }
    }
}

/// The character sequences of a list of edges.
pub open spec fn edge_views(es: Seq<Edge>) -> Seq<(Seq<char>, Seq<char>)> {
    es.map_values(|e: Edge| (e.src@, e.dst@))
}

/// The planner emits, over any chain-and-cycle decomposition, one edge
/// per chain entry and one more than its length per cycle: the sum over
/// chains of the chain length plus the sum over cycles of the cycle
/// length plus one.
pub proof fn lemma_groups_edge_count(
    ms: Seq<(Seq<char>, Seq<char>)>,
    ds: Seq<(bool, Seq<int>, Seq<char>)>,
)
    requires
        groups_wf(ms, ds),
    ensures
        groups_edges(ms, ds).len() == groups_edge_total(ds),
        groups_edge_total(ds) == groups_entries(ds).len() + groups_cycle_count(ds),
    decreases ds.len(),
{
    if ds.len() > 0 {
        assert(groups_wf(ms, ds.drop_last())) by {
            assert(forall|t: int|
                0 <= t < ds.len() - 1 ==> #[trigger] ds.drop_last()[t] == ds[t]);
        }
        lemma_groups_edge_count(ms, ds.drop_last());
        assert(ds.last() == ds[ds.len() - 1]);
        if ds.last().0 {
            assert(cycle_edges(ms, ds.last().1, ds.last().2).len() == ds.last().1.len() + 1);
        } else {
            assert(chain_edges(ms, ds.last().1).len() == ds.last().1.len());
        }
    }
}

/// With unique sources, an entry has at most one continuation.
proof fn lemma_next_unique(ms: Seq<(Seq<char>, Seq<char>)>, i: int, j1: int, j2: int)
    requires
        src_unique(ms),
        is_next(ms, i, j1),
        is_next(ms, i, j2),
    ensures
        j1 == j2,
{
}

/// With unique destinations, an entry has at most one predecessor.
proof fn lemma_prev_unique(ms: Seq<(Seq<char>, Seq<char>)>, i1: int, i2: int, j: int)
    requires
        dst_unique(ms),
        is_next(ms, i1, j),
        is_next(ms, i2, j),
    ensures
        i1 == i2,
{
}

/// A duplicate-free sequence of indices into `[0, m)` has at most `m`
/// members.
proof fn lemma_distinct_in_range_len(s: Seq<int>, m: int)
    requires
        m >= 0,
        s.no_duplicates(),
        forall|t: int| 0 <= t < s.len() ==> 0 <= #[trigger] s[t] < m,
    ensures
        s.len() <= m,
{
    if s.len() == 0 {
        return ;
    }
    assert(0 <= s[0] < m);
    s.unique_seq_to_set();
    assert(s.to_set().subset_of(vstd::set_lib::set_int_range(0, m))) by {
        assert forall|x: int| s.to_set().contains(x) implies vstd::set_lib::set_int_range(
            0,
            m,
        ).contains(x) by {
            assert(s.contains(x));
        }
    }
    vstd::set_lib::lemma_int_range(0, m);
    vstd::set_lib::lemma_len_subset(s.to_set(), vstd::set_lib::set_int_range(0, m));
}

// ---------------------------------------------------------------------------
// Path arithmetic used for temporary break-point paths.
// ---------------------------------------------------------------------------

/// The index of the last separator of `s` at or before `i`, or `-1`.
pub open spec fn last_sep(s: Seq<char>, i: int) -> int
    decreases i + 1,
{
    if i < 0 {
        -1
    } else if s[i] == '/' {
        i
    } else {
        last_sep(s, i - 1)
    }
}

/// The parent directory of `s`, lexically: the part before the last
/// separator; `/` for a top-level rooted name; the empty string for a
/// bare relative name; nothing for the root or the empty string.
pub open spec fn parent_view(s: Seq<char>) -> Option<Seq<char>> {
    if s.len() == 0 {
        None
    } else {
        let k = last_sep(s, s.len() - 1);
        if k == -1 {
            Some(Seq::empty())
        } else if k == 0 {
            if s.len() == 1 {
                None
            } else {
                Some(seq!['/'])
            }
        } else {
            Some(s.take(k))
        }
    }
}

/// The parent directory of `p`, as `parent_view` describes it.
fn parent_of(p: &str) -> (r: Option<String>)
    ensures
        match r {
            Some(d) => parent_view(p@) == Some(d@),
            None => parent_view(p@) is None,
        },
{
    let n = p.unicode_len();
    if n == 0 {
        return None;
    }
    let mut k: usize = n;
    while k > 0 && p.get_char(k - 1) != '/'
        invariant
            k <= n,
            n == p@.len(),
            last_sep(p@, n - 1) == if k == 0 {
                -1int
            } else {
                last_sep(p@, k - 1)
            },
        decreases k,
    {
        k -= 1;
    }
    if k == 0 {
        return Some(String::new());
    }
    if k == 1 {
        if n == 1 {
            return None;
        }
        let mut root = String::new();
        root.append("/");
        proof {
            reveal_strlit("/");
            assert(root@ =~= seq!['/']);
        }
        return Some(root);
    }
    Some(p.substring_char(0, k - 1).to_owned())
}

/// `dir` and `name` joined with a single separator between them.
pub open spec fn join_view(dir: Seq<char>, name: Seq<char>) -> Seq<char> {
    if dir.len() == 0 {
        name
    } else if dir[dir.len() - 1] == '/' {
        dir + name
    } else {
        dir + seq!['/'] + name
    }
}

/// Joins `dir` and `name` as `join_view` describes.
fn join_path(dir: &str, name: &str) -> (r: String)
    ensures
        r@ == join_view(dir@, name@),
{
    let n = dir.unicode_len();
    let mut out = String::new();
    if n == 0 {
        out.append(name);
        proof {
            assert(out@ =~= name@);
        }
        return out;
    }
    out.append(dir);
    if dir.get_char(n - 1) != '/' {
        out.append("/");
        out.append(name);
        proof {
            reveal_strlit("/");
            assert("/"@ =~= seq!['/']);
            assert(out@ =~= dir@ + seq!['/'] + name@);
        }
    } else {
        out.append(name);
        proof {
            assert(out@ =~= dir@ + name@);
        }
    }
    out
}

/// A sibling path inside `dir` for which the supplied existence check
/// reports no entry: candidates are drawn from the random generator until
/// a free one turns up. Every returned candidate was put to the check;
/// normally the check reported it free, and only after an astronomical
/// number of colliding attempts is the last candidate returned although
/// the check reported it taken (the retry count is bounded only to be
/// finite).
fn random_path<F: Fn(String) -> bool>(
    rng: &mut RandomPathGenerator,
    dir: &str,
    exists_fn: &F,
) -> (r: String)
    requires
        forall|c: String| call_requires(*exists_fn, (c,)),
    ensures
        call_ensures(*exists_fn, (r,), false) || call_ensures(*exists_fn, (r,), true),
        exists|v: int|
            0 <= v < 1_000_000_000 && r@ == join_view(dir@, crate::ioutils::dec_digits(v)),
{
    let mut attempts: u64 = 0;
    loop
        invariant
            forall|c: String| call_requires(*exists_fn, (c,)),
            attempts <= 0x7fff_ffff_ffff_ffff,
        decreases 0x7fff_ffff_ffff_ffffu64 - attempts,
    {
        let name = next_random(rng);
        let cand = join_path(dir, name.as_str());
        let taken = (exists_fn)(cand.clone());
        if !taken {
            return cand;
        }
        if attempts >= 0x7fff_ffff_ffff_ffff {
            return cand;
        }
        attempts += 1;
    }
}

/// What a computed continuation slot may hold: the unique continuation,
/// or nothing when the entry's destination is no entry's source.
pub open spec fn next_entry_ok(ms: Seq<(Seq<char>, Seq<char>)>, o: Option<usize>, i: int) -> bool {
    match o {
        Some(j) => is_next(ms, i, j as int),
        None => !has_next(ms, i),
    }
}

/// What a computed predecessor slot may hold.
pub open spec fn prev_entry_ok(ms: Seq<(Seq<char>, Seq<char>)>, o: Option<usize>, j: int) -> bool {
    match o {
        Some(i) => is_next(ms, i as int, j),
        None => !has_prev(ms, j),
    }
}

/// The whole continuation table is sound.
pub open spec fn nexts_ok(ms: Seq<(Seq<char>, Seq<char>)>, nxt: Seq<Option<usize>>) -> bool {
    nxt.len() == ms.len() && forall|i: int|
        0 <= i < ms.len() ==> next_entry_ok(ms, #[trigger] nxt[i], i)
}

/// The whole predecessor table is sound.
pub open spec fn prevs_ok(ms: Seq<(Seq<char>, Seq<char>)>, prv: Seq<Option<usize>>) -> bool {
    prv.len() == ms.len() && forall|j: int|
        0 <= j < ms.len() ==> prev_entry_ok(ms, #[trigger] prv[j], j)
}

/// The set of handled entries is closed under following links either way.
pub open spec fn done_closed(
    nxt: Seq<Option<usize>>,
    prv: Seq<Option<usize>>,
    done: Seq<int>,
) -> bool {
    forall|x: int|
        #[trigger] done.contains(x) ==> 0 <= x < nxt.len() && 0 <= x < prv.len() && (nxt[x]
            matches Some(j) ==> done.contains(j as int)) && (prv[x] matches Some(h)
            ==> done.contains(h as int))
}

/// `s` backwards.
spec fn rev_of(s: Seq<int>) -> Seq<int> {
    Seq::new(s.len(), |t: int| s[s.len() - 1 - t])
}

/// Membership in a concatenation is membership in either part.
proof fn lemma_contains_concat(a: Seq<int>, b: Seq<int>, x: int)
    ensures
        (a + b).contains(x) <==> a.contains(x) || b.contains(x),
{
    if (a + b).contains(x) {
        let i = choose|i: int| 0 <= i < (a + b).len() && (a + b)[i] == x;
        if i < a.len() {
            assert(a[i] == x);
        } else {
            assert(b[i - a.len()] == x);
        }
    }
    if a.contains(x) {
        let i = choose|i: int| 0 <= i < a.len() && a[i] == x;
        assert((a + b)[i] == x);
    }
    if b.contains(x) {
        let i = choose|i: int| 0 <= i < b.len() && b[i] == x;
        assert((a + b)[a.len() + i] == x);
    }
}

/// Membership after appending one element.
proof fn lemma_contains_push(s: Seq<int>, x: int)
    ensures
        forall|y: int| #[trigger] s.push(x).contains(y) <==> s.contains(y) || y == x,
{
    assert forall|y: int| #[trigger] s.push(x).contains(y) implies s.contains(y) || y == x by {
        let i = choose|i: int| 0 <= i < s.push(x).len() && s.push(x)[i] == y;
        if i < s.len() {
            assert(s[i] == y);
        }
    }
    assert forall|y: int| s.contains(y) implies s.push(x).contains(y) by {
        let i = choose|i: int| 0 <= i < s.len() && s[i] == y;
        assert(s.push(x)[i] == y);
    }
    assert(s.push(x)[s.len() as int] == x);
}

/// The views of an edge list after appending one edge.
proof fn lemma_edge_views_push(es: Seq<Edge>, ed: Edge)
    ensures
        edge_views(es.push(ed)) == edge_views(es).push((ed.src@, ed.dst@)),
{
    assert(edge_views(es.push(ed)) =~= edge_views(es).push((ed.src@, ed.dst@)));
}

/// Appending a group to a decomposition appends its entries and edges.
proof fn lemma_groups_push(
    ms: Seq<(Seq<char>, Seq<char>)>,
    ds: Seq<(bool, Seq<int>, Seq<char>)>,
    gr: (bool, Seq<int>, Seq<char>),
)
    ensures
        groups_entries(ds.push(gr)) == groups_entries(ds) + gr.1,
        groups_edges(ms, ds.push(gr)) == groups_edges(ms, ds) + (if gr.0 {
            cycle_edges(ms, gr.1, gr.2)
        } else {
            chain_edges(ms, gr.1)
        }),
        groups_edge_total(ds.push(gr)) == groups_edge_total(ds) + gr.1.len() + if gr.0 {
            1int
        } else {
            0int
        },
{
    assert(ds.push(gr).drop_last() =~= ds);
    assert(ds.push(gr).last() == gr);
}

/// Whether some entry of `ms` has source `key`, and where.
fn index_with_src(ms: &Vec<(String, String)>, key: &String) -> (r: Option<usize>)
    ensures
        match r {
            Some(j) => 0 <= j < ms@.len() && (pair_views(ms@)[j as int]).0 == key@,
            None => forall|j: int|
                0 <= j < ms@.len() ==> (#[trigger] pair_views(ms@)[j]).0 != key@,
        },
{
    let mut j: usize = 0;
    while j < ms.len()
        invariant
            j <= ms@.len(),
            forall|t: int| 0 <= t < j ==> (#[trigger] pair_views(ms@)[t]).0 != key@,
        decreases ms@.len() - j,
    {
        if ms[j].0 == *key {
            proof {
                assert((pair_views(ms@)[j as int]).0 == key@);
            }
            return Some(j);
        }
        j += 1;
    }
    None
}

/// Whether some entry of `ms` has destination `key`, and where.
fn index_with_dst(ms: &Vec<(String, String)>, key: &String) -> (r: Option<usize>)
    ensures
        match r {
            Some(j) => 0 <= j < ms@.len() && (pair_views(ms@)[j as int]).1 == key@,
            None => forall|j: int|
                0 <= j < ms@.len() ==> (#[trigger] pair_views(ms@)[j]).1 != key@,
        },
{
    let mut j: usize = 0;
    while j < ms.len()
        invariant
            j <= ms@.len(),
            forall|t: int| 0 <= t < j ==> (#[trigger] pair_views(ms@)[t]).1 != key@,
        decreases ms@.len() - j,
    {
        if ms[j].1 == *key {
            proof {
                assert((pair_views(ms@)[j as int]).1 == key@);
            }
            return Some(j);
        }
        j += 1;
    }
    None
}

/// A backward walk, read in reverse, is a whole chain of the graph.
proof fn lemma_rev_chain_shape(
    ms: Seq<(Seq<char>, Seq<char>)>,
    nxt: Seq<Option<usize>>,
    prv: Seq<Option<usize>>,
    b: Seq<int>,
    m: int,
)
    requires
        ms.len() == m,
        m <= usize::MAX,
        nexts_ok(ms, nxt),
        prevs_ok(ms, prv),
        b.len() >= 1,
        nxt[b[0]] is None,
        prv[b[b.len() - 1]] is None,
        forall|t: int| 0 <= t < b.len() - 1 ==> #[trigger] nxt[b[t + 1]] == Some(b[t] as usize),
        forall|t: int| 0 <= t < b.len() ==> 0 <= #[trigger] b[t] < m,
        b.no_duplicates(),
    ensures
        is_chain_group(ms, rev_of(b)),
        rev_of(b).no_duplicates(),
        forall|x: int| #[trigger] rev_of(b).contains(x) <==> b.contains(x),
{
    let rb = rev_of(b);
    assert(rb.len() == b.len());
    assert(is_chain_group(ms, rb)) by {
        assert(rb[0] == b[b.len() - 1]);
        assert(rb[rb.len() - 1] == b[0]);
        assert(group_in_range(ms, rb));
        assert forall|t: int| 0 <= t < rb.len() - 1 implies is_next(
            ms,
            #[trigger] rb[t],
            rb[t + 1],
        ) by {
            let k = b.len() - 2 - t;
            assert(rb[t] == b[k + 1]);
            assert(rb[t + 1] == b[k]);
            assert(nxt[b[k + 1]] == Some(b[k] as usize));
            assert(next_entry_ok(ms, nxt[b[k + 1]], b[k + 1]));
        }
        assert(prev_entry_ok(ms, prv[b[b.len() - 1]], b[b.len() - 1]));
        assert(next_entry_ok(ms, nxt[b[0]], b[0]));
    }
    assert(rb.no_duplicates()) by {
        assert(forall|t: int, u: int|
            0 <= t < u < rb.len() ==> #[trigger] rb[t] != #[trigger] rb[u]);
    }
    assert forall|x: int| #[trigger] rb.contains(x) <==> b.contains(x) by {
        if b.contains(x) {
            let k = choose|k: int| 0 <= k < b.len() && b[k] == x;
            assert(rb[b.len() - 1 - k] == x);
        }
        if rb.contains(x) {
            let k = choose|k: int| 0 <= k < rb.len() && rb[k] == x;
            assert(b[b.len() - 1 - k] == x);
        }
    }
}

/// Extending the handled entries by a whole backward walk keeps them
/// closed under following links.
proof fn lemma_walk_done_closed(
    nxt: Seq<Option<usize>>,
    prv: Seq<Option<usize>>,
    done: Seq<int>,
    done2: Seq<int>,
    b: Seq<int>,
)
    requires
        done_closed(nxt, prv, done),
        forall|x: int| #[trigger] done2.contains(x) <==> done.contains(x) || b.contains(x),
        forall|t: int|
            0 <= t < b.len() ==> 0 <= #[trigger] b[t] < nxt.len() && 0 <= b[t] < prv.len() && b[t]
                <= usize::MAX,
        b.len() >= 1,
        nxt[b[0]] is None,
        prv[b[b.len() - 1]] is None,
        forall|t: int| 0 <= t < b.len() - 1 ==> #[trigger] prv[b[t]] == Some(b[t + 1] as usize),
        forall|t: int| 0 <= t < b.len() - 1 ==> #[trigger] nxt[b[t + 1]] == Some(b[t] as usize),
    ensures
        done_closed(nxt, prv, done2),
{
    assert forall|t: int| 1 <= t < b.len() implies #[trigger] nxt[b[t]] == Some(
        b[t - 1] as usize,
    ) by {
        assert(nxt[b[(t - 1) + 1]] == Some(b[t - 1] as usize));
    }
    assert forall|x: int| #[trigger] done2.contains(x) implies 0 <= x < nxt.len() && 0 <= x
        < prv.len() && (nxt[x] matches Some(j) ==> done2.contains(j as int)) && (prv[x]
        matches Some(h) ==> done2.contains(h as int)) by {
        if done.contains(x) {
        } else {
            assert(b.contains(x));
            let k = choose|k: int| 0 <= k < b.len() && b[k] == x;
            if k == 0 {
                assert(nxt[x] is None);
            } else {
                assert(nxt[b[k]] == Some(b[k - 1] as usize));
                assert(b.contains(b[k - 1]));
            }
            if k == b.len() - 1 {
                assert(prv[b[b.len() - 1]] is None);
            } else {
                assert(prv[b[k]] == Some(b[k + 1] as usize));
                assert(b.contains(b[k + 1]));
            }
        }
    }
}

/// Closing one chain: a backward walk `b` from a terminal entry to a
/// head entry, appended to the decomposition as the chain it traversed,
/// keeps the decomposition well-formed and appends exactly the walked
/// renames to its edges.
#[verifier::rlimit(100)]
#[verifier::spinoff_prover]
proof fn lemma_close_chain(
    ms: Seq<(Seq<char>, Seq<char>)>,
    nxt: Seq<Option<usize>>,
    prv: Seq<Option<usize>>,
    ds: Seq<(bool, Seq<int>, Seq<char>)>,
    b: Seq<int>,
    m: int,
)
    requires
        ms.len() == m,
        m <= usize::MAX,
        nexts_ok(ms, nxt),
        prevs_ok(ms, prv),
        groups_wf(ms, ds),
        groups_entries(ds).no_duplicates(),
        forall|x: int| #[trigger] groups_entries(ds).contains(x) ==> 0 <= x < m,
        done_closed(nxt, prv, groups_entries(ds)),
        b.len() >= 1,
        nxt[b[0]] is None,
        prv[b[b.len() - 1]] is None,
        forall|t: int| 0 <= t < b.len() - 1 ==> #[trigger] prv[b[t]] == Some(b[t + 1] as usize),
        forall|t: int| 0 <= t < b.len() - 1 ==> #[trigger] nxt[b[t + 1]] == Some(b[t] as usize),
        forall|t: int|
            0 <= t < b.len() ==> 0 <= #[trigger] b[t] < m && !groups_entries(ds).contains(b[t]),
        b.no_duplicates(),
    ensures
        ({
            let ds2 = ds.push((false, rev_of(b), Seq::<char>::empty()));
            let en2 = groups_entries(ds2);
            &&& groups_wf(ms, ds2)
            &&& en2.no_duplicates()
            &&& forall|x: int| #[trigger] en2.contains(x) ==> 0 <= x < m
            &&& forall|x: int|
                #[trigger] en2.contains(x) <==> groups_entries(ds).contains(x) || b.contains(x)
            &&& done_closed(nxt, prv, en2)
            &&& groups_edges(ms, ds2) == groups_edges(ms, ds) + Seq::new(
                b.len(),
                |t: int| ms[b[t]],
            )
        }),
{
    let gr = (false, rev_of(b), Seq::<char>::empty());
    let done = groups_entries(ds);
    let rb = rev_of(b);
    let ds2 = ds.push(gr);
    assert(rb.len() == b.len());
    lemma_rev_chain_shape(ms, nxt, prv, b, m);
    lemma_groups_push(ms, ds, gr);
    assert(chain_edges(ms, rb) =~= Seq::new(b.len(), |t: int| ms[b[t]]));
    assert forall|i0: int, j0: int|
        0 <= i0 < done.len() && 0 <= j0 < rb.len() implies done[i0] != rb[j0] by {
        if done[i0] == rb[j0] {
            assert(rb.contains(rb[j0]));
            assert(b.contains(rb[j0]));
            let k = choose|k: int| 0 <= k < b.len() && b[k] == rb[j0];
            assert(done.contains(b[k]));
        }
    }
    lemma_no_dup_in_concat(done, rb);
    let done2 = groups_entries(ds2);
    assert(done2 == done + rb);
    assert forall|x: int| #[trigger] done2.contains(x) implies (done.contains(x) || b.contains(
        x,
    )) by {
        lemma_contains_concat(done, rb, x);
    }
    assert forall|x: int| done.contains(x) || b.contains(x) implies #[trigger] done2.contains(
        x,
    ) by {
        lemma_contains_concat(done, rb, x);
    }
    lemma_walk_done_closed(nxt, prv, done, done2, b);
    assert(groups_wf(ms, ds2)) by {
        assert(forall|t: int| 0 <= t < ds2.len() - 1 ==> #[trigger] ds2[t] == ds2.drop_last()[t]);
        assert(ds2.last() == gr);
        assert(ds2.drop_last() =~= ds);
    }
}

/// Closing one cycle: the forward walk `w`, which returned to its first
/// entry, appended to the decomposition as a cycle broken by the
/// temporary path `tmp`, keeps the decomposition well-formed.
#[verifier::rlimit(100)]
#[verifier::spinoff_prover]
proof fn lemma_close_cycle(
    ms: Seq<(Seq<char>, Seq<char>)>,
    nxt: Seq<Option<usize>>,
    prv: Seq<Option<usize>>,
    ds: Seq<(bool, Seq<int>, Seq<char>)>,
    w: Seq<int>,
    tmp: Seq<char>,
    m: int,
)
    requires
        ms.len() == m,
        m <= usize::MAX,
        dst_unique(ms),
        nexts_ok(ms, nxt),
        prevs_ok(ms, prv),
        groups_wf(ms, ds),
        groups_entries(ds).no_duplicates(),
        forall|x: int| #[trigger] groups_entries(ds).contains(x) ==> 0 <= x < m,
        done_closed(nxt, prv, groups_entries(ds)),
        w.len() >= 2,
        nxt[w[w.len() - 1]] == Some(w[0] as usize),
        forall|t: int|
            0 <= t < w.len() - 1 ==> #[trigger] nxt[w[t]] == Some(w[t + 1] as usize),
        forall|t: int|
            0 <= t < w.len() ==> 0 <= #[trigger] w[t] < m && !groups_entries(ds).contains(w[t]),
        w.no_duplicates(),
    ensures
        ({
            let ds2 = ds.push((true, w, tmp));
            let en2 = groups_entries(ds2);
            &&& groups_wf(ms, ds2)
            &&& en2.no_duplicates()
            &&& forall|x: int| #[trigger] en2.contains(x) ==> 0 <= x < m
            &&& forall|x: int|
                #[trigger] en2.contains(x) <==> groups_entries(ds).contains(x) || w.contains(x)
            &&& done_closed(nxt, prv, en2)
            &&& groups_edges(ms, ds2) == groups_edges(ms, ds) + cycle_edges(ms, w, tmp)
        }),
{
    let gr = (true, w, tmp);
    let done = groups_entries(ds);
    let ds2 = ds.push(gr);
    assert(is_cycle_group(ms, w)) by {
        assert(group_in_range(ms, w));
        assert forall|t: int| 0 <= t < w.len() - 1 implies is_next(ms, #[trigger] w[t], w[t + 1]) by {
            assert(nxt[w[t]] == Some(w[t + 1] as usize));
            assert(next_entry_ok(ms, nxt[w[t]], w[t]));
        }
        assert(next_entry_ok(ms, nxt[w.last()], w.last()));
        assert(is_next(ms, w[w.len() - 1], w[0]));
    }
    lemma_groups_push(ms, ds, gr);
    assert forall|i0: int, j0: int|
        0 <= i0 < done.len() && 0 <= j0 < w.len() implies done[i0] != w[j0] by {
        if done[i0] == w[j0] {
            assert(done.contains(w[j0]));
        }
    }
    lemma_no_dup_in_concat(done, w);
    let done2 = groups_entries(ds2);
    assert(done2 == done + w);
    assert forall|x: int| #[trigger] done2.contains(x) implies (done.contains(x) || w.contains(
        x,
    )) by {
        lemma_contains_concat(done, w, x);
    }
    assert forall|x: int| done.contains(x) || w.contains(x) implies #[trigger] done2.contains(
        x,
    ) by {
        lemma_contains_concat(done, w, x);
    }
    assert(done_closed(nxt, prv, done2)) by {
        assert forall|x: int| #[trigger] done2.contains(x) implies 0 <= x < nxt.len() && 0 <= x
            < prv.len() && (nxt[x] matches Some(j) ==> done2.contains(j as int)) && (prv[x]
            matches Some(h) ==> done2.contains(h as int)) by {
            if done.contains(x) {
            } else {
                assert(w.contains(x));
                let k = choose|k: int| 0 <= k < w.len() && w[k] == x;
                if k == w.len() - 1 {
                    assert(nxt[x] == Some(w[0] as usize));
                    assert(w.contains(w[0]));
                } else {
                    assert(nxt[w[k]] == Some(w[k + 1] as usize));
                    assert(w.contains(w[k + 1]));
                }
                let pk = if k == 0 {
                    w.last()
                } else {
                    w[k - 1]
                };
                assert(is_next(ms, pk, x)) by {
                    if k == 0 {
                        assert(nxt[w.last()] == Some(w[0] as usize));
                        assert(next_entry_ok(ms, nxt[w.last()], w.last()));
                    } else {
                        assert(nxt[w[k - 1]] == Some(w[k] as usize));
                        assert(next_entry_ok(ms, nxt[w[k - 1]], w[k - 1]));
                    }
                }
                assert(prev_entry_ok(ms, prv[x], x));
                match prv[x] {
                    Some(h2) => {
                        lemma_prev_unique(ms, h2 as int, pk, x);
                        assert(w.contains(pk));
                    },
                    None => {
                        assert(!has_prev(ms, x));
                        assert(false);
                    },
                }
            }
        }
    }
    assert(groups_wf(ms, ds2)) by {
        assert(forall|t: int| 0 <= t < ds2.len() - 1 ==> #[trigger] ds2[t] == ds2.drop_last()[t]);
        assert(ds2.last() == gr);
        assert(ds2.drop_last() =~= ds);
    }
}

/// The directory in which a cycle through the entries `g` places its
/// temporary path: the parent of the re-entry node (the first entry's
/// destination), or the empty relative directory when that node has no
/// parent.
pub open spec fn cycle_tmp_dir(ms: Seq<(Seq<char>, Seq<char>)>, g: Seq<int>) -> Seq<char> {
    match parent_view(ms[g[0]].1) {
        Some(d) => d,
        None => Seq::empty(),
    }
}

/// The temporary path of a cycle group is accounted for: it is a random
/// digit string joined under the re-entry node's parent directory, and it
/// was put to the caller's existence check — which normally reported it
/// free, the check reporting it taken being possible only after the
/// generator's astronomical retry bound ran out.
pub open spec fn cycle_tmp_ok<G: Fn(String) -> bool>(
    exists_fn: G,
    ms: Seq<(Seq<char>, Seq<char>)>,
    gr: (bool, Seq<int>, Seq<char>),
) -> bool {
    gr.0 ==> ((exists|s: String|
        s@ == gr.2 && (call_ensures(exists_fn, (s,), false) || call_ensures(exists_fn, (s,), true)))
        && (exists|v: int|
        0 <= v < 1_000_000_000 && gr.2 == join_view(
            cycle_tmp_dir(ms, gr.1),
            crate::ioutils::dec_digits(v),
        )))
}

/// Every cycle group of the decomposition accounts for its temporary.
pub open spec fn cycle_tmps_ok<G: Fn(String) -> bool>(
    exists_fn: G,
    ms: Seq<(Seq<char>, Seq<char>)>,
    ds: Seq<(bool, Seq<int>, Seq<char>)>,
) -> bool {
    forall|t: int| 0 <= t < ds.len() ==> cycle_tmp_ok(exists_fn, ms, #[trigger] ds[t])
}

/// Handles one untouched entry: walks its whole component, emits its
/// renames, marks its entries with `gnum`, and appends it to the
/// decomposition.
fn process_component<F: Fn(String) -> bool>(
    live: &Vec<(String, String)>,
    next: &Vec<Option<usize>>,
    prev: &Vec<Option<usize>>,
    group: &mut Vec<usize>,
    edges: &mut Vec<Edge>,
    rng: &mut RandomPathGenerator,
    exists_fn: &F,
    e: usize,
    gnum: usize,
    Ghost(ds0): Ghost<Seq<(bool, Seq<int>, Seq<char>)>>,
) -> (dsr: Ghost<Seq<(bool, Seq<int>, Seq<char>)>>)
    requires
        ({
            let ms = pair_views(live@);
            let m = live@.len();
            &&& src_unique(ms)
            &&& dst_unique(ms)
            &&& no_self(ms)
            &&& nexts_ok(ms, next@)
            &&& prevs_ok(ms, prev@)
            &&& old(group)@.len() == m
            &&& e < m
            &&& 1 <= gnum
            &&& (forall|c: String| call_requires(*exists_fn, (c,)))
            &&& groups_wf(ms, ds0)
            &&& groups_entries(ds0).no_duplicates()
            &&& (forall|x: int| #[trigger] groups_entries(ds0).contains(x) ==> 0 <= x < m)
            &&& (forall|t: int|
                0 <= t < m ==> (#[trigger] old(group)@[t] != 0 <==> groups_entries(
                    ds0,
                ).contains(t)))
            &&& done_closed(next@, prev@, groups_entries(ds0))
            &&& cycle_tmps_ok(*exists_fn, ms, ds0)
            &&& old(group)@[e as int] == 0
            &&& edge_views(old(edges)@) == groups_edges(ms, ds0)
        }),
    ensures
        ({
            let ms = pair_views(live@);
            let m = live@.len();
            &&& final(group)@.len() == m
            &&& groups_wf(ms, dsr@)
            &&& groups_entries(dsr@).no_duplicates()
            &&& (forall|x: int| #[trigger] groups_entries(dsr@).contains(x) ==> 0 <= x < m)
            &&& (forall|t: int|
                0 <= t < m ==> (#[trigger] final(group)@[t] != 0 <==> groups_entries(
                    dsr@,
                ).contains(t)))
            &&& done_closed(next@, prev@, groups_entries(dsr@))
            &&& cycle_tmps_ok(*exists_fn, ms, dsr@)
            &&& (forall|x: int|
                #[trigger] groups_entries(ds0).contains(x) ==> groups_entries(dsr@).contains(x))
            &&& groups_entries(dsr@).contains(e as int)
            &&& edge_views(final(edges)@) == groups_edges(ms, dsr@)
        }),
{
    let ghost ms = pair_views(live@);
    let m = live.len();
    let ghost mut ds = ds0;
    let mut cur: usize = e;
    let ghost mut w: Seq<int> = Seq::empty();
    let mut fstate: u8 = 0;
    while fstate == 0
        invariant
            m == live@.len(),
            ms == pair_views(live@),
            ms.len() == m,
            src_unique(ms),
            dst_unique(ms),
            no_self(ms),
            nexts_ok(ms, next@),
            prevs_ok(ms, prev@),
            group@.len() == m,
            1 <= gnum,
            groups_wf(ms, ds),
            groups_entries(ds).no_duplicates(),
            forall|x: int| #[trigger] groups_entries(ds).contains(x) ==> 0 <= x < m,
            done_closed(next@, prev@, groups_entries(ds)),
            edge_views(edges@) == groups_edges(ms, ds),
            fstate == 0 ==> cur < m && group@[cur as int] == 0,
            fstate == 0 && w.len() == 0 ==> cur == e,
            w.len() > 0 ==> w[0] == e as int,
            forall|t: int|
                0 <= t < w.len() - 1 ==> #[trigger] next@[w[t]] == Some(w[t + 1] as usize),
            fstate == 0 && w.len() > 0 ==> next@[w.last()] == Some(cur),
            forall|t: int|
                0 <= t < w.len() ==> 0 <= #[trigger] w[t] < m && group@[w[t]] == gnum
                    && !groups_entries(ds).contains(w[t]),
            w.no_duplicates(),
            fstate == 0 ==> !groups_entries(ds).contains(cur as int) && !w.contains(
                cur as int,
            ),
            forall|t: int|
                0 <= t < m ==> (#[trigger] group@[t] != 0 <==> groups_entries(
                    ds,
                ).contains(t) || w.contains(t)),
            fstate == 1 ==> w.len() >= 1 && next@[w.last()] is None && cur as int
                == w.last(),
            fstate == 2 ==> w.len() >= 2 && next@[w.last()] == Some(e),
            fstate <= 2,
        decreases m - w.len(),
    {
        proof {
            lemma_distinct_in_range_len(w, m as int);
        }
        let slot = next[cur];
        match slot {
            None => {
                group.set(cur, gnum);
                proof {
                    lemma_contains_push(w, cur as int);
                    w = w.push(cur as int);
                }
                fstate = 1;
            },
            Some(f) => {
                proof {
                    assert(next_entry_ok(ms, next@[cur as int], cur as int));
                    assert(is_next(ms, cur as int, f as int));
                }
                group.set(cur, gnum);
                proof {
                    lemma_contains_push(w, cur as int);
                    w = w.push(cur as int);
                }
                if group[f] != 0 {
                    proof {
                        let fi = f as int;
                        let done = groups_entries(ds);
                        assert(is_next(ms, w.last(), fi));
                        if fi != w.last() {
                            assert(group@[fi] != 0);
                        }
                        if done.contains(fi) {
                            assert(prev_entry_ok(ms, prev@[fi], fi));
                            match prev@[fi] {
                                Some(p) => {
                                    assert(done.contains(p as int));
                                    assert(is_next(ms, p as int, fi));
                                    lemma_prev_unique(ms, p as int, w.last(), fi);
                                    assert(done.contains(w.last()));
                                    assert(false);
                                },
                                None => {
                                    assert(!has_prev(ms, fi));
                                    assert(false);
                                },
                            }
                        }
                        assert(w.contains(fi));
                        let t0 = choose|t: int| 0 <= t < w.len() && w[t] == fi;
                        if t0 > 0 {
                            assert(next@[w[t0 - 1]] == Some(w[t0] as usize));
                            assert(next_entry_ok(ms, next@[w[t0 - 1]], w[t0 - 1]));
                            assert(is_next(ms, w[t0 - 1], fi));
                            lemma_prev_unique(ms, w[t0 - 1], w.last(), fi);
                            assert(w[t0 - 1] == w[w.len() - 1]);
                            assert(false);
                        }
                        assert(fi == w[0]);
                        if w.len() == 1 {
                            assert(is_next(ms, cur as int, cur as int));
                            assert(ms[cur as int].0 != ms[cur as int].1);
                            assert(false);
                        }
                    }
                    fstate = 2;
                } else {
                    cur = f;
                }
            },
        }
        proof {
            lemma_distinct_in_range_len(w, m as int);
        }
    }
    if fstate == 1 {
        let mut g: usize = cur;
        let ghost mut b: Seq<int> = Seq::empty();
        let mut bstate: u8 = 0;
        while bstate == 0
            invariant
                m == live@.len(),
                ms == pair_views(live@),
                ms.len() == m,
                src_unique(ms),
                dst_unique(ms),
                no_self(ms),
                nexts_ok(ms, next@),
                prevs_ok(ms, prev@),
                group@.len() == m,
                1 <= gnum,
                groups_wf(ms, ds),
                groups_entries(ds).no_duplicates(),
                forall|x: int| #[trigger] groups_entries(ds).contains(x) ==> 0 <= x < m,
                done_closed(next@, prev@, groups_entries(ds)),
                // the forward walk, frozen
                w.len() >= 1,
                w[0] == e as int,
                next@[w.last()] is None,
                forall|t: int|
                    0 <= t < w.len() - 1 ==> #[trigger] next@[w[t]] == Some(
                        w[t + 1] as usize,
                    ),
                forall|t: int|
                    0 <= t < w.len() ==> 0 <= #[trigger] w[t] < m && group@[w[t]] == gnum
                        && !groups_entries(ds).contains(w[t]),
                w.no_duplicates(),
                // the backward walk
                edge_views(edges@) == groups_edges(ms, ds) + Seq::new(
                    b.len(),
                    |t: int| ms[b[t]],
                ),
                bstate == 0 ==> g < m,
                bstate == 0 && b.len() == 0 ==> g as int == w.last(),
                b.len() > 0 ==> b[0] == w.last(),
                forall|t: int|
                    0 <= t < b.len() - 1 ==> #[trigger] prev@[b[t]] == Some(
                        b[t + 1] as usize,
                    ),
                forall|t: int|
                    0 <= t < b.len() - 1 ==> #[trigger] next@[b[t + 1]] == Some(
                        b[t] as usize,
                    ),
                bstate == 0 && b.len() > 0 ==> prev@[b.last()] == Some(g) && next@[
                    g as int
                ] == Some(b.last() as usize),
                forall|t: int|
                    0 <= t < b.len() ==> 0 <= #[trigger] b[t] < m && group@[b[t]] == gnum
                        && !groups_entries(ds).contains(b[t]),
                b.no_duplicates(),
                bstate == 0 ==> !b.contains(g as int) && !groups_entries(ds).contains(
                    g as int,
                ),
                forall|k: int|
                    0 <= k < b.len() && k < w.len() ==> #[trigger] b[k] == w[w.len() - 1
                        - k],
                bstate == 0 && b.len() < w.len() ==> g as int == w[w.len() - 1 - b.len()],
                forall|t: int|
                    0 <= t < m ==> (#[trigger] group@[t] != 0 <==> groups_entries(
                        ds,
                    ).contains(t) || w.contains(t) || b.contains(t)),
                bstate == 1 ==> b.len() >= w.len() && b.len() >= 1 && prev@[b.last()]
                    is None,
                bstate <= 1,
            decreases m - b.len(),
        {
            proof {
                lemma_distinct_in_range_len(b, m as int);
            }
            let ghost old_edges = edges@;
            edges.push(
                Edge { src: live[g].0.clone(), dst: live[g].1.clone() },
            );
            group.set(g, gnum);
            proof {
                lemma_contains_push(b, g as int);
                lemma_edge_views_push(
                    old_edges,
                    Edge { src: live@[g as int].0, dst: live@[g as int].1 },
                );
                b = b.push(g as int);
                assert(ms[g as int] == (live@[g as int].0@, live@[g as int].1@));
                assert(edge_views(edges@) =~= groups_edges(ms, ds) + Seq::new(
                    b.len(),
                    |t: int| ms[b[t]],
                ));
            }
            let slot = prev[g];
            match slot {
                None => {
                    proof {
                        if b.len() < w.len() {
                            let u = w.len() - b.len();
                            assert(b.last() == w[u]);
                            assert(next@[w[u - 1]] == Some(w[u] as usize));
                            assert(next_entry_ok(ms, next@[w[u - 1]], w[u - 1]));
                            assert(is_next(ms, w[u - 1], b.last()));
                            assert(prev_entry_ok(ms, prev@[b.last()], b.last()));
                            assert(false);
                        }
                    }
                    bstate = 1;
                },
                Some(h) => {
                    proof {
                        let hi = h as int;
                        let gi = g as int;
                        assert(prev_entry_ok(ms, prev@[gi], gi));
                        assert(is_next(ms, hi, gi));
                        // h is new: not in b, not already handled
                        if groups_entries(ds).contains(hi) {
                            assert(next@[hi] matches Some(q) ==> groups_entries(
                                ds,
                            ).contains(q as int));
                            assert(next_entry_ok(ms, next@[hi], hi));
                            match next@[hi] {
                                Some(q) => {
                                    lemma_next_unique(ms, hi, q as int, gi);
                                    assert(groups_entries(ds).contains(gi));
                                    assert(false);
                                },
                                None => {
                                    assert(!has_next(ms, hi));
                                    assert(false);
                                },
                            }
                        }
                        assert(next@[hi] == Some(g)) by {
                            assert(next_entry_ok(ms, next@[hi], hi));
                            match next@[hi] {
                                Some(q) => {
                                    lemma_next_unique(ms, hi, q as int, gi);
                                },
                                None => {
                                    assert(!has_next(ms, hi));
                                    assert(false);
                                },
                            }
                        }
                        if b.contains(hi) {
                            let k = choose|k: int| 0 <= k < b.len() && b[k] == hi;
                            if k == 0 {
                                assert(next@[b[0]] is None);
                                assert(false);
                            } else {
                                assert(prev@[b[k - 1]] == Some(b[k] as usize));
                                assert(next@[b[k]] == Some(b[k - 1] as usize));
                                assert(b[k - 1] == b.last());
                                assert(k - 1 == b.len() - 1);
                                assert(false);
                            }
                        }
                        if b.len() < w.len() {
                            let u = w.len() - b.len();
                            assert(b.last() == w[u]);
                            assert(next@[w[u - 1]] == Some(w[u] as usize));
                            assert(next_entry_ok(ms, next@[w[u - 1]], w[u - 1]));
                            assert(is_next(ms, w[u - 1], b.last()));
                            lemma_prev_unique(ms, w[u - 1], hi, b.last());
                            assert(hi == w[u - 1]);
                        }
                    }
                    g = h;
                },
            }
            proof {
                lemma_distinct_in_range_len(b, m as int);
            }
        }
        proof {
            lemma_close_chain(ms, next@, prev@, ds, b, m as int);
            let done = groups_entries(ds);
            let ds_prev = ds;
            ds = ds.push((false, rev_of(b), Seq::<char>::empty()));
            let done2 = groups_entries(ds);
            assert(cycle_tmps_ok(*exists_fn, ms, ds)) by {
                assert forall|t: int| 0 <= t < ds.len() implies cycle_tmp_ok(
                    *exists_fn,
                    ms,
                    #[trigger] ds[t],
                ) by {
                    if t < ds.len() - 1 {
                        assert(ds[t] == ds_prev[t]);
                        assert(cycle_tmp_ok(*exists_fn, ms, ds_prev[t]));
                    } else {
                        assert(!ds[t].0);
                    }
                }
            }
            assert forall|x: int| w.contains(x) implies b.contains(x) by {
                let u = choose|u: int| 0 <= u < w.len() && w[u] == x;
                assert(b[w.len() - 1 - u] == w[u]);
            }
            assert forall|t: int| 0 <= t < m implies (#[trigger] group@[t] != 0
                <==> done2.contains(t)) by {
                assert(done2.contains(t) <==> done.contains(t) || b.contains(t));
            }
            assert(done2.contains(e as int)) by {
                assert(w[0] == e as int);
                assert(w.contains(e as int));
            }
        }
    } else {
        // a cycle through entry `e`; its re-entry node is that
        // entry's destination
        let dir: String = match parent_of(live[e].1.as_str()) {
            Some(d) => d,
            None => String::new(),
        };
        proof {
            assert(w[0] == e as int);
            assert(ms[e as int].1 == live@[e as int].1@);
            assert(dir@ == cycle_tmp_dir(ms, w));
        }
        let tmp: String = random_path(rng, dir.as_str(), exists_fn);
        let ghost tmpv = tmp;
        let ghost old_edges = edges@;
        edges.push(Edge { src: live[e].1.clone(), dst: tmp.clone() });
        let ghost base = groups_edges(ms, ds);
        proof {
            lemma_edge_views_push(old_edges, Edge { src: live@[e as int].1, dst: tmp });
            assert(ms[e as int] == (live@[e as int].0@, live@[e as int].1@));
            assert(edge_views(edges@) =~= base + seq![(ms[e as int].1, tmp@)]
                + Seq::new(0, |u: int| ms[w[0]]));
        }
        let mut g: usize = e;
        let ghost mut steps: int = 0;
        let mut cstate: u8 = 0;
        while cstate == 0
            invariant
                m == live@.len(),
                ms == pair_views(live@),
                ms.len() == m,
                src_unique(ms),
                dst_unique(ms),
                no_self(ms),
                nexts_ok(ms, next@),
                prevs_ok(ms, prev@),
                group@.len() == m,
                1 <= gnum,
                groups_wf(ms, ds),
                groups_entries(ds).no_duplicates(),
                forall|x: int| #[trigger] groups_entries(ds).contains(x) ==> 0 <= x < m,
                done_closed(next@, prev@, groups_entries(ds)),
                base == groups_edges(ms, ds),
                // the cycle, frozen
                w.len() >= 2,
                w[0] == e as int,
                e < m,
                next@[w.last()] == Some(e),
                forall|t: int|
                    0 <= t < w.len() - 1 ==> #[trigger] next@[w[t]] == Some(
                        w[t + 1] as usize,
                    ),
                forall|t: int|
                    0 <= t < w.len() ==> 0 <= #[trigger] w[t] < m && group@[w[t]] == gnum
                        && !groups_entries(ds).contains(w[t]),
                w.no_duplicates(),
                forall|t: int|
                    0 <= t < m ==> (#[trigger] group@[t] != 0 <==> groups_entries(
                        ds,
                    ).contains(t) || w.contains(t)),
                // the backward sweep
                0 <= steps <= w.len() - 1,
                g as int == (if steps == 0 {
                    w[0]
                } else {
                    w[w.len() - steps]
                }),
                edge_views(edges@) == base + seq![(ms[e as int].1, tmp@)] + Seq::new(
                    steps as nat,
                    |u: int|
                        if u == 0 {
                            ms[w[0]]
                        } else {
                            ms[w[w.len() - u]]
                        },
                ),
                cstate == 1 ==> steps == w.len() - 1 && g as int == w[1],
                cstate <= 1,
            decreases
                    w.len() - steps,
                    (if cstate == 0 {
                        1int
                    } else {
                        0int
                    }),
        {
            let slot = prev[g];
            proof {
                let gi = g as int;
                // the predecessor of the current cycle entry
                let pi = if steps == w.len() - 1 {
                    w[0]
                } else if steps == 0 {
                    w.last()
                } else {
                    w[w.len() - steps - 1]
                };
                assert(is_next(ms, pi, gi)) by {
                    if steps == 0 {
                        assert(next@[w.last()] == Some(e));
                        assert(next_entry_ok(ms, next@[w.last()], w.last()));
                    } else {
                        assert(next@[w[w.len() - steps - 1]] == Some(
                            w[w.len() - steps] as usize,
                        ));
                        assert(next_entry_ok(
                            ms,
                            next@[w[w.len() - steps - 1]],
                            w[w.len() - steps - 1],
                        ));
                    }
                }
                assert(prev_entry_ok(ms, prev@[gi], gi));
                match prev@[gi] {
                    Some(h) => {
                        lemma_prev_unique(ms, h as int, pi, gi);
                        assert(h as int == pi);
                    },
                    None => {
                        assert(!has_prev(ms, gi));
                        assert(false);
                    },
                }
            }
            match slot {
                None => {
                    proof {
                        assert(false);
                    }
                    cstate = 1;
                },
                Some(h) => {
                    if group[h] == gnum && h != e {
                        let ghost old_edges2 = edges@;
                        edges.push(
                            Edge { src: live[g].0.clone(), dst: live[g].1.clone() },
                        );
                        proof {
                            lemma_edge_views_push(
                                old_edges2,
                                Edge { src: live@[g as int].0, dst: live@[g as int].1 },
                            );
                            let old_steps = steps;
                            steps = steps + 1;
                            assert(ms[g as int] == (
                                live@[g as int].0@,
                                live@[g as int].1@,
                            ));
                            assert(h as int == w[w.len() - steps]) by {
                                if old_steps == w.len() - 1 {
                                    assert(h as int == w[0]);
                                    assert(false);
                                }
                            }
                            assert(edge_views(edges@) =~= base + seq![
                                (ms[e as int].1, tmp@),
                            ] + Seq::new(
                                steps as nat,
                                |u: int|
                                    if u == 0 {
                                        ms[w[0]]
                                    } else {
                                        ms[w[w.len() - u]]
                                    },
                            ));
                            assert(steps <= w.len() - 1) by {
                                if old_steps == w.len() - 1 {
                                    assert(false);
                                }
                            }
                        }
                        g = h;
                    } else {
                        proof {
                            // the stop: the predecessor is the
                            // displaced entry itself
                            assert(h as int == e as int) by {
                                if h as int != e as int {
                                    if steps == w.len() - 1 {
                                        assert(h as int == w[0]);
                                        assert(false);
                                    } else {
                                        let pi = if steps == 0 {
                                            w.last()
                                        } else {
                                            w[w.len() - steps - 1]
                                        };
                                        assert(h as int == pi);
                                        assert(w.contains(pi));
                                        assert(group@[pi] == gnum);
                                        assert(false);
                                    }
                                }
                            }
                            assert(steps == w.len() - 1) by {
                                if steps < w.len() - 1 {
                                    let pi = if steps == 0 {
                                        w.last()
                                    } else {
                                        w[w.len() - steps - 1]
                                    };
                                    assert(h as int == pi);
                                    if steps == 0 {
                                        assert(pi == w.last());
                                        assert(w[0] == e as int);
                                        assert(pi == e as int);
                                        assert(false);
                                    } else {
                                        assert(pi == w[w.len() - steps - 1]);
                                        assert(w[0] == e as int);
                                        assert(w.no_duplicates());
                                        assert(false);
                                    }
                                }
                            }
                            assert(g as int == w[1]);
                        }
                        cstate = 1;
                    }
                },
            }
        }
        let ghost old_edges3 = edges@;
        edges.push(Edge { src: tmp.clone(), dst: live[g].1.clone() });
        proof {
            lemma_edge_views_push(old_edges3, Edge { src: tmp, dst: live@[g as int].1 });
            lemma_close_cycle(ms, next@, prev@, ds, w, tmp@, m as int);
            let done = groups_entries(ds);
            assert(ms[g as int] == (live@[g as int].0@, live@[g as int].1@));
            assert(edge_views(edges@) =~= base + cycle_edges(ms, w, tmp@)) by {
                assert(g as int == w[1]);
                assert(ms[w[1]].1 == live@[g as int].1@);
            }
            let ds_prev = ds;
            ds = ds.push((true, w, tmp@));
            let done2 = groups_entries(ds);
            assert(cycle_tmps_ok(*exists_fn, ms, ds)) by {
                assert forall|t: int| 0 <= t < ds.len() implies cycle_tmp_ok(
                    *exists_fn,
                    ms,
                    #[trigger] ds[t],
                ) by {
                    if t < ds.len() - 1 {
                        assert(ds[t] == ds_prev[t]);
                        assert(cycle_tmp_ok(*exists_fn, ms, ds_prev[t]));
                    } else {
                        assert(ds[t] == (true, w, tmpv@));
                        assert(tmpv@ == ds[t].2);
                        assert(call_ensures(*exists_fn, (tmpv,), false) || call_ensures(
                            *exists_fn,
                            (tmpv,),
                            true,
                        ));
                        let v = choose|v: int|
                            0 <= v < 1_000_000_000 && tmpv@ == join_view(
                                dir@,
                                crate::ioutils::dec_digits(v),
                            );
                        assert(dir@ == cycle_tmp_dir(ms, w));
                        assert(ds[t].2 == join_view(
                            cycle_tmp_dir(ms, ds[t].1),
                            crate::ioutils::dec_digits(v),
                        ));
                    }
                }
            }
            assert forall|t: int| 0 <= t < m implies (#[trigger] group@[t] != 0
                <==> done2.contains(t)) by {
                assert(done2.contains(t) <==> done.contains(t) || w.contains(t));
            }
            assert(done2.contains(e as int)) by {
                assert(w[0] == e as int);
                assert(w.contains(e as int));
            }
        }
    }
    proof {
        assert forall|x: int| #[trigger] groups_entries(ds0).contains(x)
            implies groups_entries(ds).contains(x) by {
        }
    }
    Ghost(ds)
}

/// Plans the batch: validates and cleans the mapping, then orders one
/// primitive rename per surviving entry so that every destination is
/// still free when its rename runs, breaking each rename cycle with a
/// temporary sibling path drawn from `rng` and checked against
/// `exists_fn`.
///
/// On success the edge list decomposes into the chains and cycles of the
/// rename graph: a chain of `n` entries contributes its own `n` renames,
/// emitted tail first, and a cycle of `k` entries contributes `k + 1`
/// renames by way of the temporary path.
#[verifier::rlimit(100)]
pub fn build_renames<F: Fn(String) -> bool>(
    files: &Vec<(String, String)>,
    rng: &mut RandomPathGenerator,
    exists_fn: &F,
) -> (r: Result<Vec<Edge>, PlanError>)
    requires
        forall|c: String| call_requires(*exists_fn, (c,)),
    ensures
        ({
            let vs = pair_views(files@);
            let ms = live_views(cleaned_views(vs));
            match r {
                Ok(edges) => mapping_ok(vs) && exists|ds: Seq<(bool, Seq<int>, Seq<char>)>|
                    {
                        &&& #[trigger] groups_wf(ms, ds)
                        &&& groups_partition(ms, ds)
                        &&& cycle_tmps_ok(*exists_fn, ms, ds)
                        &&& edge_views(edges@) == groups_edges(ms, ds)
                        &&& edges@.len() == groups_entries(ds).len() + groups_cycle_count(ds)
                    },
                Err(e) => !mapping_ok(vs) && exists|i: int|
                    0 <= i < vs.len() && #[trigger] bad_at(vs, i) && (forall|k: int|
                        0 <= k < i ==> !bad_at(vs, k)) && plan_error_matches(e, vs, i),
            }
        }),
{
    let ghost vs = pair_views(files@);
    let live = match validate(files) {
        Ok(l) => l,
        Err(e) => {
            proof {
                let i = choose|i: int|
                    0 <= i < vs.len() && #[trigger] bad_at(vs, i) && (forall|k: int|
                        0 <= k < i ==> !bad_at(vs, k)) && plan_error_matches(e, vs, i);
                assert(bad_at(vs, i));
                assert(!mapping_ok(vs));
            }
            return Err(e);
        },
    };
    let ghost ms = pair_views(live@);
    let m = live.len();

    let mut next: Vec<Option<usize>> = Vec::new();
    let mut i: usize = 0;
    while i < m
        invariant
            m == live@.len(),
            ms == pair_views(live@),
            next@.len() == i,
            i <= m,
            forall|t: int| 0 <= t < i ==> next_entry_ok(ms, #[trigger] next@[t], t),
        decreases m - i,
    {
        let slot = index_with_src(&live, &live[i].1);
        proof {
            assert(ms[i as int].1 == live@[i as int].1@);
            if let Some(j) = slot {
                assert((pair_views(live@)[j as int]).0 == live@[i as int].1@);
            }
        }
        next.push(slot);
        i += 1;
    }
    let mut prev: Vec<Option<usize>> = Vec::new();
    let mut i2: usize = 0;
    while i2 < m
        invariant
            m == live@.len(),
            ms == pair_views(live@),
            prev@.len() == i2,
            i2 <= m,
            forall|t: int| 0 <= t < i2 ==> prev_entry_ok(ms, #[trigger] prev@[t], t),
        decreases m - i2,
    {
        let slot = index_with_dst(&live, &live[i2].0);
        proof {
            assert(ms[i2 as int].0 == live@[i2 as int].0@);
            if let Some(j) = slot {
                assert((pair_views(live@)[j as int]).1 == live@[i2 as int].0@);
            }
        }
        prev.push(slot);
        i2 += 1;
    }

    let mut group: Vec<usize> = Vec::new();
    let mut i3: usize = 0;
    while i3 < m
        invariant
            group@.len() == i3,
            i3 <= m,
            forall|t: int| 0 <= t < i3 ==> #[trigger] group@[t] == 0,
        decreases m - i3,
    {
        group.push(0);
        i3 += 1;
    }

    let mut edges: Vec<Edge> = Vec::new();
    let ghost mut ds: Seq<(bool, Seq<int>, Seq<char>)> = Seq::empty();
    let mut gnum: usize = 0;
    let mut e: usize = 0;
    proof {
        assert(groups_entries(ds) =~= Seq::<int>::empty());
        assert(groups_edges(ms, ds) =~= Seq::<(Seq<char>, Seq<char>)>::empty());
        assert(edge_views(edges@) =~= Seq::<(Seq<char>, Seq<char>)>::empty());
    }
    while e < m
        invariant
            m == live@.len(),
            ms == pair_views(live@),
            ms.len() == m,
            src_unique(ms),
            dst_unique(ms),
            no_self(ms),
            nexts_ok(ms, next@),
            prevs_ok(ms, prev@),
            group@.len() == m,
            e <= m,
            gnum <= e,
            forall|c: String| call_requires(*exists_fn, (c,)),
            groups_wf(ms, ds),
            groups_entries(ds).no_duplicates(),
            forall|x: int| #[trigger] groups_entries(ds).contains(x) ==> 0 <= x < m,
            forall|t: int|
                0 <= t < m ==> (#[trigger] group@[t] != 0 <==> groups_entries(ds).contains(t)),
            done_closed(next@, prev@, groups_entries(ds)),
            cycle_tmps_ok(*exists_fn, ms, ds),
            forall|t: int| 0 <= t < e ==> groups_entries(ds).contains(t),
            edge_views(edges@) == groups_edges(ms, ds),
        decreases m - e,
    {
        if group[e] == 0 {
            gnum += 1;
            let dsr = process_component(
                &live,
                &next,
                &prev,
                &mut group,
                &mut edges,
                rng,
                exists_fn,
                e,
                gnum,
                Ghost(ds),
            );
            proof {
                let old_ds = ds;
                ds = dsr@;
                assert forall|t: int| 0 <= t <= e implies groups_entries(ds).contains(t) by {
                    if t < e {
                        assert(groups_entries(old_ds).contains(t));
                    }
                }
            }
        }
        e += 1;
    }
    proof {
        assert(groups_partition(ms, ds));
        let ms0 = live_views(cleaned_views(vs));
        assert(ms0 == ms);
        assert(groups_wf(ms0, ds));
        assert(groups_partition(ms0, ds));
        assert(edge_views(edges@) == groups_edges(ms0, ds));
        lemma_groups_edge_count(ms0, ds);
        assert(edge_views(edges@).len() == edges@.len());
        assert(edges@.len() == groups_entries(ds).len() + groups_cycle_count(ds));
        assert(cycle_tmps_ok(*exists_fn, ms0, ds)) by {
            assert forall|t: int| 0 <= t < ds.len() implies cycle_tmp_ok(
                *exists_fn,
                ms0,
                #[trigger] ds[t],
            ) by {
                assert(cycle_tmp_ok(*exists_fn, ms, ds[t]));
            }
        }
    }
    Ok(edges)
}

// ---------------------------------------------------------------------------
// Execution: applying edges through caller-supplied filesystem operations,
// with rollback of the applied prefix on failure.
// ---------------------------------------------------------------------------

/// Why executing an edge list stopped.
#[derive(Debug, Clone, PartialEq, Eq)]
pub enum ExecError {
    /// The rename failed and its source no longer exists.
    SourceMissing(String),
    /// This destination parent directory could not be created; the cause
    /// follows.
    DestinationUncreatable(String, String),
    /// Renaming the first path to the second failed even after its parent
    /// directory was in place; the cause follows.
    RenameFailed(String, String, String),
    /// Undoing the rename of the first path to the second failed during
    /// rollback; the cause follows.
    RollbackFailed(String, String, String),
}

/// The text of an execution error, naming the paths involved.
pub open spec fn exec_error_text(e: ExecError) -> Seq<char> {
    match e {
        ExecError::SourceMissing(p) => "Source missing "@ + p@,
        ExecError::DestinationUncreatable(d, c) => "Cannot create directory "@ + d@ + ": "@ + c@,
        ExecError::RenameFailed(s, d, c) => "Cannot rename "@ + s@ + " to "@ + d@ + ": "@ + c@,
        ExecError::RollbackFailed(s, d, c) => "Cannot undo rename of "@ + s@ + " to "@ + d@ + ": "@
            + c@,
    }
}

impl ExecError {
    /// Human-readable error text, naming the paths involved.
    pub fn message(&self) -> (r: String)
        ensures
            r@ == exec_error_text(*self),
    {
        let mut out = String::new();
        match self {
            ExecError::SourceMissing(p) => {
                out.append("Source missing ");
                out.append(p.as_str());
                proof {
                    assert(out@ =~= "Source missing "@ + p@);
                }
            },
            ExecError::DestinationUncreatable(d, c) => {
                out.append("Cannot create directory ");
                out.append(d.as_str());
                out.append(": ");
                out.append(c.as_str());
                proof {
                    assert(out@ =~= "Cannot create directory "@ + d@ + ": "@ + c@);
                }
            },
            ExecError::RenameFailed(s, d, c) => {
                out.append("Cannot rename ");
                out.append(s.as_str());
                out.append(" to ");
                out.append(d.as_str());
                out.append(": ");
                out.append(c.as_str());
                proof {
                    assert(out@ =~= "Cannot rename "@ + s@ + " to "@ + d@ + ": "@ + c@);
                }
            },
            ExecError::RollbackFailed(s, d, c) => {
                out.append("Cannot undo rename of ");
                out.append(s.as_str());
                out.append(" to ");
                out.append(d.as_str());
                out.append(": ");
                out.append(c.as_str());
                proof {
                    assert(out@ =~= "Cannot undo rename of "@ + s@ + " to "@ + d@ + ": "@ + c@);
                }
            },
        }
        out
    }
}

/// The error `e` reports, with evidence from the caller's operations, why
/// the edge from `src` to `dst` could not be applied. A missing source
/// was reported missing by the existence check; the other two kinds can
/// only arise after the check reported the source present, which fixes
/// the order the kinds are tried in; and in every kind the rename
/// operation itself was seen to fail on this edge first.
pub open spec fn edge_failed<
    F: Fn(String, String) -> Result<(), String>,
    G: Fn(String) -> bool,
    H: Fn(String) -> Result<(), String>,
>(
    rename_fs: F,
    exists_fs: G,
    mkdirs: H,
    e: ExecError,
    src: String,
    dst: String,
) -> bool {
    match e {
        ExecError::SourceMissing(p) => p == src && call_ensures(exists_fs, (src,), false) && (
        exists|c0: String| call_ensures(rename_fs, (src, dst), Err(c0))),
        ExecError::DestinationUncreatable(d, c) => parent_view(dst@) == Some(d@) && call_ensures(
            mkdirs,
            (d,),
            Err(c),
        ) && call_ensures(exists_fs, (src,), true) && (exists|c0: String|
            call_ensures(rename_fs, (src, dst), Err(c0))),
        ExecError::RenameFailed(s, d, c) => s == src && d == dst && call_ensures(
            rename_fs,
            (src, dst),
            Err(c),
        ) && call_ensures(exists_fs, (src,), true),
        ExecError::RollbackFailed(_s, _d, _c) => false,
    }
}

/// The applied edge `e` was dealt with during rollback: either the rename
/// operation reported its reversal done, or a warning records the exact
/// reversal that failed, with the cause the operation returned.
pub open spec fn edge_undone<F: Fn(String, String) -> Result<(), String>>(
    rename_fs: F,
    warnings: Seq<ExecError>,
    e: Edge,
) -> bool {
    ||| call_ensures(rename_fs, (e.dst, e.src), Ok(()))
    ||| exists|t: int|
        0 <= t < warnings.len() && ((#[trigger] warnings[t]) matches ExecError::RollbackFailed(
            d,
            s,
            c,
        ) && d == e.dst && s == e.src && call_ensures(rename_fs, (d, s), Err(c)))
}

/// An execution failure: the error that stopped the batch, with any
/// rollback failures attached as warnings. The warnings never replace the
/// primary error.
#[derive(Debug, Clone, PartialEq, Eq)]
pub struct ExecFailure {
    pub error: ExecError,
    pub warnings: Vec<ExecError>,
}

/// One primitive rename against the caller's filesystem: try it; if it
/// fails while the source still exists, create the destination's parent
/// directories and try once more.
fn do_rename<F: Fn(String, String) -> Result<(), String>, G: Fn(String) -> bool, H: Fn(
    String,
) -> Result<(), String>>(
    src: &String,
    dst: &String,
    rename_fs: &F,
    exists_fs: &G,
    mkdirs: &H,
) -> (r: Result<(), ExecError>)
    requires
        forall|a: String, b: String| call_requires(*rename_fs, (a, b)),
        forall|a: String| call_requires(*exists_fs, (a,)),
        forall|a: String| call_requires(*mkdirs, (a,)),
    ensures
        r is Ok ==> call_ensures(*rename_fs, (*src, *dst), Ok(())),
        r matches Err(e) ==> edge_failed(*rename_fs, *exists_fs, *mkdirs, e, *src, *dst),
{
    match (rename_fs)(src.clone(), dst.clone()) {
        Ok(_u) => Ok(()),
        Err(_first) => {
            if !(exists_fs)(src.clone()) {
                return Err(ExecError::SourceMissing(src.clone()));
            }
            match parent_of(dst.as_str()) {
                Some(par) => {
                    match (mkdirs)(par.clone()) {
                        Ok(_u) => {},
                        Err(cause) => {
                            return Err(ExecError::DestinationUncreatable(par, cause));
                        },
                    }
                },
                None => {},
            }
            match (rename_fs)(src.clone(), dst.clone()) {
                Ok(_u) => Ok(()),
                Err(cause) => Err(
                    ExecError::RenameFailed(src.clone(), dst.clone(), cause),
                ),
            }
        },
    }
}

/// The renames that undo `es`: each edge reversed, last first.
pub open spec fn rollback_views(es: Seq<(Seq<char>, Seq<char>)>) -> Seq<(Seq<char>, Seq<char>)> {
    Seq::new(es.len(), |t: int| (es[es.len() - 1 - t].1, es[es.len() - 1 - t].0))
}

/// The edges that undo the first `k` edges of `edges`: each applied edge
/// reversed, in reverse order of application.
pub fn rollback_edges(edges: &Vec<Edge>, k: usize) -> (r: Vec<Edge>)
    requires
        k <= edges@.len(),
    ensures
        r@.len() == k,
        edge_views(r@) == rollback_views(edge_views(edges@).take(k as int)),
        forall|t: int|
            0 <= t < k ==> (#[trigger] r@[t]).src == edges@[k - 1 - t].dst && r@[t].dst == edges@[
                k - 1 - t].src,
{
    let mut out: Vec<Edge> = Vec::new();
    let mut j: usize = k;
    while j > 0
        invariant
            j <= k <= edges@.len(),
            out@.len() == k - j,
            forall|t: int|
                0 <= t < out@.len() ==> (#[trigger] out@[t]).src == edges@[k - 1 - t].dst
                    && out@[t].dst == edges@[k - 1 - t].src,
        decreases j,
    {
        j -= 1;
        out.push(Edge { src: edges[j].dst.clone(), dst: edges[j].src.clone() });
    }
    proof {
        assert(edge_views(out@) =~= rollback_views(edge_views(edges@).take(k as int)));
    }
    out
}

/// Applies the edges in the given order. Each edge goes through
/// `do_rename`; on the first edge that still fails, every edge already
/// applied is renamed back, in reverse order, and the original error is
/// returned with any rollback failures attached as warnings. The rollback
/// sweep never stops early and never replaces the primary error.
pub fn execute<F: Fn(String, String) -> Result<(), String>, G: Fn(String) -> bool, H: Fn(
    String,
) -> Result<(), String>>(
    edges: &Vec<Edge>,
    rename_fs: &F,
    exists_fs: &G,
    mkdirs: &H,
) -> (r: Result<(), ExecFailure>)
    requires
        forall|a: String, b: String| call_requires(*rename_fs, (a, b)),
        forall|a: String| call_requires(*exists_fs, (a,)),
        forall|a: String| call_requires(*mkdirs, (a,)),
    ensures
        edges@.len() == 0 ==> r is Ok,
        r is Ok ==> forall|t: int|
            0 <= t < edges@.len() ==> call_ensures(
                *rename_fs,
                ((#[trigger] edges@[t]).src, edges@[t].dst),
                Ok(()),
            ),
        r matches Err(f) ==> exists|i: int|
            {
                &&& 0 <= i < edges@.len()
                &&& edge_failed(
                    *rename_fs,
                    *exists_fs,
                    *mkdirs,
                    f.error,
                    (#[trigger] edges@[i]).src,
                    edges@[i].dst,
                )
                &&& forall|t: int|
                    0 <= t < i ==> call_ensures(
                        *rename_fs,
                        ((#[trigger] edges@[t]).src, edges@[t].dst),
                        Ok(()),
                    )
                &&& forall|t: int|
                    0 <= t < i ==> edge_undone(*rename_fs, f.warnings@, #[trigger] edges@[t])
            },
        r matches Err(f) ==> !(f.error is RollbackFailed) && forall|t: int|
            0 <= t < f.warnings@.len() ==> ((#[trigger] f.warnings@[t]) matches
                ExecError::RollbackFailed(d, s, _c) && exists|j: int|
                0 <= j < edges@.len() && d == (#[trigger] edges@[j]).dst && s == edges@[j].src),
{
    let mut i: usize = 0;
    while i < edges.len()
        invariant
            i <= edges@.len(),
            forall|a: String, b: String| call_requires(*rename_fs, (a, b)),
            forall|a: String| call_requires(*exists_fs, (a,)),
            forall|a: String| call_requires(*mkdirs, (a,)),
            forall|t: int|
                0 <= t < i ==> call_ensures(
                    *rename_fs,
                    ((#[trigger] edges@[t]).src, edges@[t].dst),
                    Ok(()),
                ),
        decreases edges@.len() - i,
    {
        match do_rename(&edges[i].src, &edges[i].dst, rename_fs, exists_fs, mkdirs) {
            Ok(_u) => {},
            Err(primary) => {
                proof {
                    assert(edge_failed(
                        *rename_fs,
                        *exists_fs,
                        *mkdirs,
                        primary,
                        edges@[i as int].src,
                        edges@[i as int].dst,
                    ));
                }
                let undo = rollback_edges(edges, i);
                let mut warnings: Vec<ExecError> = Vec::new();
                let mut j: usize = 0;
                while j < undo.len()
                    invariant
                        undo@.len() == i <= edges@.len(),
                        forall|t: int|
                            0 <= t < i ==> (#[trigger] undo@[t]).src == edges@[i - 1 - t].dst
                                && undo@[t].dst == edges@[i - 1 - t].src,
                        forall|a: String, b: String| call_requires(*rename_fs, (a, b)),
                        j <= undo@.len(),
                        forall|k: int|
                            i - j <= k < i ==> edge_undone(
                                *rename_fs,
                                warnings@,
                                #[trigger] edges@[k],
                            ),
                        forall|t: int|
                            0 <= t < warnings@.len() ==> ((#[trigger] warnings@[t]) matches
                                ExecError::RollbackFailed(d, s, _c) && exists|u: int|
                                0 <= u < edges@.len() && d == (#[trigger] edges@[u]).dst && s
                                    == edges@[u].src),
                    decreases undo@.len() - j,
                {
                    let ghost old_warnings = warnings@;
                    let ghost k0 = i - 1 - j;
                    match (rename_fs)(undo[j].src.clone(), undo[j].dst.clone()) {
                        Ok(_u) => {
                            proof {
                                assert(undo@[j as int].src == edges@[k0].dst);
                                assert(undo@[j as int].dst == edges@[k0].src);
                                assert(edge_undone(*rename_fs, warnings@, edges@[k0]));
                            }
                        },
                        Err(cause) => {
                            warnings.push(
                                ExecError::RollbackFailed(
                                    undo[j].src.clone(),
                                    undo[j].dst.clone(),
                                    cause,
                                ),
                            );
                            proof {
                                assert(undo@[j as int].src == edges@[k0].dst);
                                assert(undo@[j as int].dst == edges@[k0].src);
                                assert(warnings@[warnings@.len() - 1] matches
                                    ExecError::RollbackFailed(d, s, c) && d == edges@[k0].dst
                                    && s == edges@[k0].src && call_ensures(
                                    *rename_fs,
                                    (d, s),
                                    Err(c),
                                ));
                                assert(edge_undone(*rename_fs, warnings@, edges@[k0]));
                                assert forall|k: int|
                                    i - j <= k < i implies edge_undone(
                                    *rename_fs,
                                    warnings@,
                                    #[trigger] edges@[k],
                                ) by {
                                    assert(edge_undone(*rename_fs, old_warnings, edges@[k]));
                                    if !call_ensures(
                                        *rename_fs,
                                        (edges@[k].dst, edges@[k].src),
                                        Ok(()),
                                    ) {
                                        let t = choose|t: int|
                                            0 <= t < old_warnings.len() && ((
                                            #[trigger] old_warnings[t]) matches
                                                ExecError::RollbackFailed(d, s, c) && d
                                                == edges@[k].dst && s == edges@[k].src
                                                && call_ensures(*rename_fs, (d, s), Err(c)));
                                        assert(warnings@[t] == old_warnings[t]);
                                    }
                                }
                            }
                        },
                    }
                    j += 1;
                }
                proof {
                    assert(forall|k: int|
                        0 <= k < i ==> edge_undone(*rename_fs, warnings@, #[trigger] edges@[k]));
                }
                return Err(ExecFailure { error: primary, warnings });
            },
        }
        i += 1;
    }
    Ok(())
}

// ---------------------------------------------------------------------------
// The rollback law, over a model filesystem.
// ---------------------------------------------------------------------------

/// One rename on a model filesystem: the content under the source moves
/// to the destination.
pub open spec fn apply_edge(
    fs: Map<Seq<char>, Seq<char>>,
    e: (Seq<char>, Seq<char>),
) -> Map<Seq<char>, Seq<char>> {
    if fs.contains_key(e.0) {
        fs.remove(e.0).insert(e.1, fs[e.0])
    } else {
        fs
    }
}

/// The edges applied in order.
pub open spec fn apply_edges(
    fs: Map<Seq<char>, Seq<char>>,
    es: Seq<(Seq<char>, Seq<char>)>,
) -> Map<Seq<char>, Seq<char>>
    decreases es.len(),
{
    if es.len() == 0 {
        fs
    } else {
        apply_edges(apply_edge(fs, es[0]), es.drop_first())
    }
}

/// Every edge, at its turn, moves an existing entry onto a free name.
pub open spec fn edges_applicable(
    fs: Map<Seq<char>, Seq<char>>,
    es: Seq<(Seq<char>, Seq<char>)>,
) -> bool
    decreases es.len(),
{
    if es.len() == 0 {
        true
    } else {
        &&& es[0].0 != es[0].1
        &&& fs.contains_key(es[0].0)
        &&& !fs.contains_key(es[0].1)
        &&& edges_applicable(apply_edge(fs, es[0]), es.drop_first())
    }
}

/// Applying a concatenation is applying the parts in turn.
proof fn lemma_apply_concat(
    fs: Map<Seq<char>, Seq<char>>,
    a: Seq<(Seq<char>, Seq<char>)>,
    b: Seq<(Seq<char>, Seq<char>)>,
)
    ensures
        apply_edges(fs, a + b) == apply_edges(apply_edges(fs, a), b),
    decreases a.len(),
{
    if a.len() == 0 {
        assert(a + b =~= b);
    } else {
        assert((a + b)[0] == a[0]);
        assert((a + b).drop_first() =~= a.drop_first() + b);
        lemma_apply_concat(apply_edge(fs, a[0]), a.drop_first(), b);
    }
}

/// Undoing one applicable rename restores the filesystem.
proof fn lemma_apply_undo(fs: Map<Seq<char>, Seq<char>>, e: (Seq<char>, Seq<char>))
    requires
        e.0 != e.1,
        fs.contains_key(e.0),
        !fs.contains_key(e.1),
    ensures
        apply_edge(apply_edge(fs, e), (e.1, e.0)) == fs,
{
    let fs1 = apply_edge(fs, e);
    assert(fs1 == fs.remove(e.0).insert(e.1, fs[e.0]));
    assert(fs1.contains_key(e.1));
    assert(apply_edge(fs1, (e.1, e.0)) == fs1.remove(e.1).insert(e.0, fs1[e.1]));
    assert(fs1[e.1] == fs[e.0]);
    assert(fs1.remove(e.1) =~= fs.remove(e.0));
    assert(fs1.remove(e.1).insert(e.0, fs[e.0]) =~= fs);
}

/// Rollback restores the model filesystem to its state before execution:
/// applying any applicable edge list and then its reversed undo edges, in
/// reverse order, is the identity. Of the real filesystem this holds for
/// every edge applied before a failure, because each applied rename moved
/// an existing entry onto a free name; directories created along the way
/// are not part of the file map and stay.
pub proof fn lemma_rollback_restores(
    fs: Map<Seq<char>, Seq<char>>,
    es: Seq<(Seq<char>, Seq<char>)>,
)
    requires
        edges_applicable(fs, es),
    ensures
        apply_edges(apply_edges(fs, es), rollback_views(es)) == fs,
    decreases es.len(),
{
    if es.len() == 0 {
    } else {
        let e0 = es[0];
        let rest = es.drop_first();
        let fs1 = apply_edge(fs, e0);
        lemma_rollback_restores(fs1, rest);
        let combined = rollback_views(rest) + seq![(e0.1, e0.0)];
        assert(rollback_views(es) =~= combined) by {
            assert forall|t: int| 0 <= t < es.len() implies rollback_views(es)[t]
                == combined[t] by {
                if t < rest.len() {
                    assert(rollback_views(rest)[t] == (
                        rest[rest.len() - 1 - t].1,
                        rest[rest.len() - 1 - t].0,
                    ));
                    assert(es[es.len() - 1 - t] == rest[rest.len() - 1 - t]);
                }
            }
        }
        let applied = apply_edges(fs, es);
        assert(applied == apply_edges(fs1, rest));
        let undo1 = seq![(e0.1, e0.0)];
        lemma_apply_concat(applied, rollback_views(rest), undo1);
        assert(apply_edges(applied, rollback_views(rest)) == fs1);
        assert(undo1[0] == (e0.1, e0.0));
        assert(undo1.drop_first() =~= Seq::<(Seq<char>, Seq<char>)>::empty());
        assert(apply_edges(fs1, undo1) == apply_edges(apply_edge(fs1, undo1[0]), undo1.drop_first()));
        assert(apply_edges(apply_edge(fs1, undo1[0]), undo1.drop_first()) == apply_edge(
            fs1,
            (e0.1, e0.0),
        ));
        lemma_apply_undo(fs, e0);
    }
}

/// `p` is a source or destination of some entry of the group `g`.
pub open spec fn group_path(ms: Seq<(Seq<char>, Seq<char>)>, g: Seq<int>, p: Seq<char>) -> bool {
    exists|t: int|
        0 <= t < g.len() && ((#[trigger] ms[g[t]]).0 == p || ms[g[t]].1 == p)
}

/// Executing a chain's planned edges performs every one of its renames.
///
/// For linked entries whose sources all exist and whose final destination
/// is free, the tail-first edge order is applicable — each rename moves
/// an existing entry onto a free name — and afterwards every destination
/// holds what its source held, the head's source is gone, and every path
/// the chain does not name is untouched.
#[verifier::rlimit(100)]
#[verifier::spinoff_prover]
pub proof fn lemma_chain_execution(
    fs: Map<Seq<char>, Seq<char>>,
    ms: Seq<(Seq<char>, Seq<char>)>,
    g: Seq<int>,
)
    requires
        src_unique(ms),
        dst_unique(ms),
        no_self(ms),
        g.len() >= 1,
        group_in_range(ms, g),
        group_linked(ms, g),
        g.no_duplicates(),
        forall|t: int| 0 <= t < g.len() ==> fs.contains_key((#[trigger] ms[g[t]]).0),
        !fs.contains_key(ms[g[g.len() - 1]].1),
    ensures
        edges_applicable(fs, chain_edges(ms, g)),
        ({
            let fs2 = apply_edges(fs, chain_edges(ms, g));
            &&& forall|t: int|
                0 <= t < g.len() ==> fs2.contains_key((#[trigger] ms[g[t]]).1) && fs2[ms[g[t]].1]
                    == fs[ms[g[t]].0]
            &&& !fs2.contains_key(ms[g[0]].0)
            &&& forall|p: Seq<char>|
                !group_path(ms, g, p) ==> (#[trigger] fs2.contains_key(p) == fs.contains_key(p))
                    && (fs.contains_key(p) ==> fs2[p] == fs[p])
        }),
    decreases g.len(),
{
    let k = g.len() as int;
    let es = chain_edges(ms, g);
    let last = ms[g[k - 1]];
    if k == 1 {
        assert(es =~= seq![last]);
        assert(es.drop_first() =~= Seq::<(Seq<char>, Seq<char>)>::empty());
        let fs2 = apply_edges(fs, es);
        assert(es[0] == last);
        assert(apply_edges(fs, es) == apply_edges(apply_edge(fs, es[0]), es.drop_first()));
        assert(apply_edges(apply_edge(fs, last), es.drop_first()) == apply_edge(fs, last));
        assert(fs2 == apply_edge(fs, last));
        assert(ms[g[0]].0 != ms[g[0]].1);
        assert(edges_applicable(apply_edge(fs, es[0]), es.drop_first()));
        assert(edges_applicable(fs, es));
        assert(fs2 == fs.remove(last.0).insert(last.1, fs[last.0]));
        assert forall|p: Seq<char>| !group_path(ms, g, p) implies (#[trigger] fs2.contains_key(p)
            == fs.contains_key(p)) && (fs.contains_key(p) ==> fs2[p] == fs[p]) by {
            assert(ms[g[0]].0 != p && ms[g[0]].1 != p);
        }
    } else {
        let gl = g.drop_last();
        let prev = ms[g[k - 2]];
        assert(forall|t: int| 0 <= t < gl.len() ==> #[trigger] gl[t] == g[t]);
        assert(group_in_range(ms, gl));
        assert(gl.no_duplicates());
        let shorter = seq![last] + chain_edges(ms, gl);
        assert(es =~= shorter) by {
            assert forall|t: int| 0 <= t < k implies es[t] == shorter[t] by {
                if t >= 1 {
                    assert(es[t] == ms[g[k - 1 - t]]);
                    assert(gl[k - 2 - (t - 1)] == g[k - 1 - t]);
                }
            }
        }
        assert(is_next(ms, g[k - 2], g[k - 1]));
        assert(prev.1 == last.0);
        let fs1 = apply_edge(fs, last);
        assert(fs1 == fs.remove(last.0).insert(last.1, fs[last.0]));
        assert(last.0 != last.1);
        assert(!fs1.contains_key(last.0));
        // the shorter chain finds its sources intact and its new terminal
        // destination vacated
        assert(group_linked(ms, gl)) by {
            assert(forall|t: int| 0 <= t < k - 1 ==> #[trigger] gl[t] == g[t]);
        }
        assert forall|t: int| 0 <= t < gl.len() implies fs1.contains_key(
            (#[trigger] ms[gl[t]]).0,
        ) by {
            assert(gl[t] == g[t]);
            assert(fs.contains_key(ms[g[t]].0));
            assert(ms[g[t]].0 != last.0);
            assert(ms[g[t]].0 != last.1);
        }
        assert(!fs1.contains_key(ms[gl[k - 2]].1)) by {
            assert(gl[k - 2] == g[k - 2]);
            assert(prev.1 == last.0);
        }
        lemma_chain_execution(fs1, ms, gl);
        let fs2 = apply_edges(fs1, chain_edges(ms, gl));
        assert(es[0] == last);
        assert(es.drop_first() =~= chain_edges(ms, gl));
        assert(apply_edges(fs, es) == apply_edges(apply_edge(fs, es[0]), es.drop_first()));
        assert(apply_edges(fs, es) == fs2);
        // the last entry's destination is outside the shorter chain
        assert(!group_path(ms, gl, last.1)) by {
            if group_path(ms, gl, last.1) {
                let t = choose|t: int|
                    0 <= t < gl.len() && ((#[trigger] ms[gl[t]]).0 == last.1 || ms[gl[t]].1
                        == last.1);
                assert(gl[t] == g[t]);
                if ms[g[t]].0 == last.1 {
                    assert(fs.contains_key(ms[g[t]].0));
                }
                if ms[g[t]].1 == last.1 {
                    assert(g[t] != g[k - 1]);
                }
            }
        }
        assert(fs2.contains_key(last.1) && fs2[last.1] == fs[last.0]) by {
            assert(!group_path(ms, gl, last.1));
            assert(fs1.contains_key(last.1));
            assert(fs2.contains_key(last.1) == fs1.contains_key(last.1));
            assert(fs2[last.1] == fs1[last.1]);
            assert(fs1[last.1] == fs[last.0]);
        }
        assert forall|t: int| 0 <= t < k implies fs2.contains_key((#[trigger] ms[g[t]]).1)
            && fs2[ms[g[t]].1] == fs[ms[g[t]].0] by {
            if t < k - 1 {
                assert(gl[t] == g[t]);
                assert(fs2.contains_key(ms[gl[t]].1));
                assert(fs2[ms[gl[t]].1] == fs1[ms[gl[t]].0]);
                assert(ms[g[t]].0 != last.0);
                assert(ms[g[t]].0 != last.1);
                assert(fs1[ms[g[t]].0] == fs[ms[g[t]].0]);
            }
        }
        assert(!fs2.contains_key(ms[g[0]].0)) by {
            assert(gl[0] == g[0]);
        }
        assert forall|p: Seq<char>| !group_path(ms, g, p) implies (#[trigger] fs2.contains_key(p)
            == fs.contains_key(p)) && (fs.contains_key(p) ==> fs2[p] == fs[p]) by {
            assert(!group_path(ms, gl, p)) by {
                if group_path(ms, gl, p) {
                    let t = choose|t: int|
                        0 <= t < gl.len() && ((#[trigger] ms[gl[t]]).0 == p || ms[gl[t]].1 == p);
                    assert(gl[t] == g[t]);
                    assert(group_path(ms, g, p));
                }
            }
            assert(ms[g[k - 1]].0 != p && ms[g[k - 1]].1 != p);
            assert(fs1.contains_key(p) == fs.contains_key(p));
            if fs.contains_key(p) {
                assert(fs1[p] == fs[p]);
            }
        }
        // applicability of the whole order
        assert(edges_applicable(fs1, chain_edges(ms, gl)));
        assert(edges_applicable(fs, es)) by {
            assert(es[0] == last);
            assert(es.drop_first() =~= chain_edges(ms, gl));
            assert(fs.contains_key(last.0));
            assert(!fs.contains_key(last.1));
        }
    }
}

/// Applicability joins over concatenation.
proof fn lemma_applicable_concat(
    fs: Map<Seq<char>, Seq<char>>,
    a: Seq<(Seq<char>, Seq<char>)>,
    b: Seq<(Seq<char>, Seq<char>)>,
)
    requires
        edges_applicable(fs, a),
        edges_applicable(apply_edges(fs, a), b),
    ensures
        edges_applicable(fs, a + b),
    decreases a.len(),
{
    if a.len() == 0 {
        assert(a + b =~= b);
        assert(apply_edges(fs, a) == fs);
    } else {
        assert((a + b)[0] == a[0]);
        assert((a + b).drop_first() =~= a.drop_first() + b);
        assert(apply_edges(fs, a) == apply_edges(apply_edge(fs, a[0]), a.drop_first()));
        lemma_applicable_concat(apply_edge(fs, a[0]), a.drop_first(), b);
    }
}

/// Executing a cycle's planned edges rotates every entry's content to
/// its destination.
///
/// The first edge moves the re-entry node's content aside to the fresh
/// temporary path; the rest of the cycle then resolves as a chain, and
/// the closing edge moves the displaced content into its place. The
/// whole order is applicable, the temporary path ends up free again, and
/// every path the cycle does not name is untouched.
#[verifier::rlimit(100)]
#[verifier::spinoff_prover]
pub proof fn lemma_cycle_execution(
    fs: Map<Seq<char>, Seq<char>>,
    ms: Seq<(Seq<char>, Seq<char>)>,
    g: Seq<int>,
    tmp: Seq<char>,
)
    requires
        src_unique(ms),
        dst_unique(ms),
        no_self(ms),
        is_cycle_group(ms, g),
        g.no_duplicates(),
        forall|t: int| 0 <= t < g.len() ==> fs.contains_key((#[trigger] ms[g[t]]).0),
        !fs.contains_key(tmp),
        forall|t: int|
            0 <= t < g.len() ==> (#[trigger] ms[g[t]]).0 != tmp && ms[g[t]].1 != tmp,
    ensures
        edges_applicable(fs, cycle_edges(ms, g, tmp)),
        ({
            let fs2 = apply_edges(fs, cycle_edges(ms, g, tmp));
            &&& forall|t: int|
                0 <= t < g.len() ==> fs2.contains_key((#[trigger] ms[g[t]]).1) && fs2[ms[g[t]].1]
                    == fs[ms[g[t]].0]
            &&& !fs2.contains_key(tmp)
            &&& forall|p: Seq<char>|
                !group_path(ms, g, p) && p != tmp ==> (#[trigger] fs2.contains_key(p)
                    == fs.contains_key(p)) && (fs.contains_key(p) ==> fs2[p] == fs[p])
        }),
{
    let k = g.len() as int;
    let v = ms[g[0]].1;
    assert(is_next(ms, g[0], g[1]));
    assert(v == ms[g[1]].0);
    let first = (v, tmp);
    let closing = (tmp, ms[g[1]].1);
    let h = g.subrange(2, k) + seq![g[0]];
    assert(h.len() == k - 1);
    assert(forall|t: int| 0 <= t < k - 2 ==> #[trigger] h[t] == g[t + 2]);
    assert(h[k - 2] == g[0]);
    assert(group_in_range(ms, h)) by {
        assert forall|t: int| 0 <= t < h.len() implies 0 <= #[trigger] h[t] < ms.len() by {
            if t < k - 2 {
                assert(h[t] == g[t + 2]);
            }
        }
    }
    assert(group_linked(ms, h)) by {
        assert forall|t: int| 0 <= t < h.len() - 1 implies is_next(ms, #[trigger] h[t], h[t + 1]) by {
            if t < k - 3 {
                assert(h[t] == g[t + 2] && h[t + 1] == g[t + 3]);
                assert(is_next(ms, g[t + 2], g[t + 3]));
            } else {
                assert(h[t] == g[k - 1] && h[t + 1] == g[0]);
                assert(is_next(ms, g[k - 1], g[0]));
            }
        }
    }
    assert(h.no_duplicates()) by {
        assert forall|t: int, u: int|
            0 <= t < u < h.len() implies #[trigger] h[t] != #[trigger] h[u] by {
            if u < k - 2 {
                assert(h[t] == g[t + 2] && h[u] == g[u + 2]);
            } else {
                assert(h[u] == g[0]);
                assert(h[t] == g[t + 2]);
            }
        }
    }
    let fs1 = apply_edge(fs, first);
    assert(fs.contains_key(v)) by {
        assert(fs.contains_key(ms[g[1]].0));
    }
    assert(fs1 == fs.remove(v).insert(tmp, fs[v]));
    assert forall|t: int| 0 <= t < h.len() implies fs1.contains_key((#[trigger] ms[h[t]]).0) by {
        let i = if t < k - 2 {
            g[t + 2]
        } else {
            g[0]
        };
        assert(h[t] == i);
        assert(fs.contains_key(ms[i].0));
        assert(ms[i].0 != v) by {
            if ms[i].0 == ms[g[1]].0 {
                assert(i != g[1]);
            }
        }
        assert(ms[i].0 != tmp);
    }
    assert(!fs1.contains_key(ms[h[h.len() - 1]].1)) by {
        assert(ms[h[k - 2]].1 == v);
        assert(v != tmp);
    }
    lemma_chain_execution(fs1, ms, h);
    let ces = chain_edges(ms, h);
    let fs2h = apply_edges(fs1, ces);
    // the full order is the displacement, the chain, and the closing move
    let full = cycle_edges(ms, g, tmp);
    let tail = ces + seq![closing];
    assert(full =~= seq![first] + tail) by {
        assert forall|t: int| 0 <= t < full.len() implies full[t] == (seq![first] + tail)[t] by {
            if t == 0 {
            } else if t < k {
                let u = t - 1;
                assert(full[t] == (if u == 0 {
                    ms[g[0]]
                } else {
                    ms[g[k - u]]
                }));
                assert(ces[u] == ms[h[h.len() - 1 - u]]);
                if u == 0 {
                    assert(h[k - 2] == g[0]);
                } else {
                    assert(h[k - 2 - u] == g[k - u]);
                }
            } else {
                assert(full[t] == closing);
            }
        }
    }
    lemma_apply_concat(fs, seq![first], tail);
    assert(apply_edges(fs, seq![first]) == fs1) by {
        assert(seq![first][0] == first);
        assert(seq![first].drop_first() =~= Seq::<(Seq<char>, Seq<char>)>::empty());
        assert(apply_edges(fs, seq![first]) == apply_edges(
            apply_edge(fs, first),
            seq![first].drop_first(),
        ));
        assert(apply_edges(fs1, seq![first].drop_first()) == fs1);
    }
    lemma_apply_concat(fs1, ces, seq![closing]);
    // after the chain, the temporary still holds the displaced content
    // and the closing destination has been vacated
    assert(!group_path(ms, h, tmp)) by {
        if group_path(ms, h, tmp) {
            let t = choose|t: int|
                0 <= t < h.len() && ((#[trigger] ms[h[t]]).0 == tmp || ms[h[t]].1 == tmp);
            let i = if t < k - 2 {
                g[t + 2]
            } else {
                g[0]
            };
            assert(h[t] == i);
            assert(ms[i].0 != tmp && ms[i].1 != tmp);
        }
    }
    assert(fs2h.contains_key(tmp) && fs2h[tmp] == fs[v]) by {
        assert(fs1.contains_key(tmp));
        assert(fs2h.contains_key(tmp) == fs1.contains_key(tmp));
        assert(fs2h[tmp] == fs1[tmp]);
        assert(fs1[tmp] == fs[v]);
    }
    assert(ms[g[1]].1 == ms[h[0]].0) by {
        if k == 2 {
            assert(h[0] == g[0]);
            assert(is_next(ms, g[1], g[0]));
        } else {
            assert(h[0] == g[2]);
            assert(is_next(ms, g[1], g[2]));
        }
    }
    assert(!fs2h.contains_key(ms[g[1]].1)) by {
        assert(!fs2h.contains_key(ms[h[0]].0));
    }
    let fs3 = apply_edge(fs2h, closing);
    assert(fs3 == fs2h.remove(tmp).insert(ms[g[1]].1, fs[v]));
    assert(apply_edges(fs2h, seq![closing]) == fs3) by {
        assert(seq![closing][0] == closing);
        assert(seq![closing].drop_first() =~= Seq::<(Seq<char>, Seq<char>)>::empty());
        assert(apply_edges(fs2h, seq![closing]) == apply_edges(
            apply_edge(fs2h, closing),
            seq![closing].drop_first(),
        ));
        assert(apply_edges(fs3, seq![closing].drop_first()) == fs3);
    }
    assert(apply_edges(fs, full) == fs3);
    // applicability of the whole order
    assert(edges_applicable(fs, seq![first])) by {
        assert(v != tmp);
        assert(seq![first].drop_first() =~= Seq::<(Seq<char>, Seq<char>)>::empty());
        assert(edges_applicable(fs1, seq![first].drop_first()));
    }
    assert(edges_applicable(fs2h, seq![closing])) by {
        assert(tmp != ms[g[1]].1);
        assert(seq![closing].drop_first() =~= Seq::<(Seq<char>, Seq<char>)>::empty());
        assert(edges_applicable(fs3, seq![closing].drop_first()));
    }
    lemma_applicable_concat(fs1, ces, seq![closing]);
    lemma_applicable_concat(fs, seq![first], tail);
    assert(edges_applicable(fs, full));
    // the ensured shape of the final filesystem
    assert forall|t: int| 0 <= t < k implies fs3.contains_key((#[trigger] ms[g[t]]).1)
        && fs3[ms[g[t]].1] == fs[ms[g[t]].0] by {
        if t == 1 {
            assert(fs3.contains_key(ms[g[1]].1));
            assert(fs3[ms[g[1]].1] == fs[v]);
        } else {
            let u = if t == 0 {
                k - 2
            } else {
                t - 2
            };
            assert(h[u] == g[t]);
            assert(fs2h.contains_key(ms[h[u]].1));
            assert(fs2h[ms[h[u]].1] == fs1[ms[h[u]].0]);
            assert(ms[g[t]].0 != v) by {
                if ms[g[t]].0 == ms[g[1]].0 {
                    assert(g[t] != g[1]);
                }
            }
            assert(ms[g[t]].0 != tmp);
            assert(fs1[ms[g[t]].0] == fs[ms[g[t]].0]);
            assert(fs1.contains_key(ms[g[t]].0));
            assert(ms[g[t]].1 != tmp);
            assert(ms[g[t]].1 != ms[g[1]].1) by {
                assert(g[t] != g[1]);
            }
            assert(fs3.contains_key(ms[g[t]].1));
            assert(fs3[ms[g[t]].1] == fs2h[ms[g[t]].1]);
        }
    }
    assert(!fs3.contains_key(tmp)) by {
        assert(ms[g[1]].1 != tmp);
    }
    assert forall|p: Seq<char>| !group_path(ms, g, p) && p != tmp implies (
    #[trigger] fs3.contains_key(p) == fs.contains_key(p)) && (fs.contains_key(p) ==> fs3[p]
        == fs[p]) by {
        assert(!group_path(ms, h, p)) by {
            if group_path(ms, h, p) {
                let t = choose|t: int|
                    0 <= t < h.len() && ((#[trigger] ms[h[t]]).0 == p || ms[h[t]].1 == p);
                let i = if t < k - 2 {
                    g[t + 2]
                } else {
                    g[0]
                };
                assert(h[t] == i);
                let w = choose|w: int| 0 <= w < g.len() && g[w] == i;
                assert(group_path(ms, g, p)) by {
                    assert(ms[g[w]].0 == p || ms[g[w]].1 == p);
                }
            }
        }
        assert(p != v) by {
            assert(ms[g[0]].1 == v);
            if p == v {
                assert(group_path(ms, g, p));
            }
        }
        assert(fs1.contains_key(p) == fs.contains_key(p));
        if fs.contains_key(p) {
            assert(fs1[p] == fs[p]);
        }
        assert(fs2h.contains_key(p) == fs1.contains_key(p));
        if fs1.contains_key(p) {
            assert(fs2h[p] == fs1[p]);
        }
        assert(p != ms[g[1]].1) by {
            if p == ms[g[1]].1 {
                assert(group_path(ms, g, p));
            }
        }
        assert(fs3.contains_key(p) == fs2h.contains_key(p));
        if fs2h.contains_key(p) {
            assert(fs3[p] == fs2h[p]);
        }
    }
}

/// An entry of the decomposition lies in one of its groups.
proof fn lemma_entries_member(ds: Seq<(bool, Seq<int>, Seq<char>)>, x: int)
    requires
        groups_entries(ds).contains(x),
    ensures
        exists|t: int| 0 <= t < ds.len() && (#[trigger] ds[t]).1.contains(x),
    decreases ds.len(),
{
    let dl = ds.drop_last();
    lemma_contains_concat(groups_entries(dl), ds.last().1, x);
    if ds.last().1.contains(x) {
        assert(ds[ds.len() - 1].1.contains(x));
    } else {
        lemma_entries_member(dl, x);
        let t = choose|t: int| 0 <= t < dl.len() && (#[trigger] dl[t]).1.contains(x);
        assert(ds[t].1.contains(x));
    }
}

/// A group of the decomposition contributes its entries.
proof fn lemma_member_entries(ds: Seq<(bool, Seq<int>, Seq<char>)>, t: int, x: int)
    requires
        0 <= t < ds.len(),
        ds[t].1.contains(x),
    ensures
        groups_entries(ds).contains(x),
    decreases ds.len(),
{
    let dl = ds.drop_last();
    if t == ds.len() - 1 {
        lemma_contains_concat(groups_entries(dl), ds.last().1, x);
    } else {
        assert(dl[t] == ds[t]);
        lemma_member_entries(dl, t, x);
        lemma_contains_concat(groups_entries(dl), ds.last().1, x);
    }
}

/// A whole chain or cycle is closed under following the graph's links.
proof fn lemma_group_closed(ms: Seq<(Seq<char>, Seq<char>)>, cyclic: bool, g: Seq<int>)
    requires
        src_unique(ms),
        dst_unique(ms),
        if cyclic {
            is_cycle_group(ms, g)
        } else {
            is_chain_group(ms, g)
        },
    ensures
        forall|a: int, j: int|
            0 <= a < g.len() && #[trigger] is_next(ms, g[a], j) ==> g.contains(j),
        forall|a: int, j: int|
            0 <= a < g.len() && #[trigger] is_next(ms, j, g[a]) ==> g.contains(j),
{
    assert forall|a: int, j: int|
        0 <= a < g.len() && #[trigger] is_next(ms, g[a], j) implies g.contains(j) by {
        if a < g.len() - 1 {
            assert(is_next(ms, g[a], g[a + 1]));
            lemma_next_unique(ms, g[a], j, g[a + 1]);
        } else {
            if cyclic {
                assert(is_next(ms, g[g.len() - 1], g[0]));
                lemma_next_unique(ms, g[a], j, g[0]);
            } else {
                assert(!has_next(ms, g[g.len() - 1]));
            }
        }
    }
    assert forall|a: int, j: int|
        0 <= a < g.len() && #[trigger] is_next(ms, j, g[a]) implies g.contains(j) by {
        if a > 0 {
            assert(is_next(ms, g[a - 1], g[a]));
            lemma_prev_unique(ms, j, g[a - 1], g[a]);
        } else {
            if cyclic {
                assert(is_next(ms, g[g.len() - 1], g[0]));
                lemma_prev_unique(ms, j, g[g.len() - 1], g[0]);
            } else {
                assert(!has_prev(ms, g[0]));
            }
        }
    }
}

/// `p` is a path some group of the decomposition works with: a source or
/// destination of one of its entries, or a cycle's temporary path.
pub open spec fn ds_path(
    ms: Seq<(Seq<char>, Seq<char>)>,
    ds: Seq<(bool, Seq<int>, Seq<char>)>,
    p: Seq<char>,
) -> bool {
    exists|t: int|
        0 <= t < ds.len() && (group_path(ms, (#[trigger] ds[t]).1, p) || (ds[t].0 && ds[t].2
            == p))
}

/// Executing a whole plan performs the whole mapping.
///
/// Over any chain-and-cycle decomposition of the mapping — which is what
/// the planner returns — the planned edge order is applicable from start
/// to finish on a filesystem holding every source, with every chain's
/// final destination free and every cycle's temporary path fresh, and
/// afterwards every covered entry's destination holds what its source
/// held, while every path the plan does not name is untouched.
#[verifier::rlimit(100)]
#[verifier::spinoff_prover]
pub proof fn lemma_plan_execution(
    fs: Map<Seq<char>, Seq<char>>,
    ms: Seq<(Seq<char>, Seq<char>)>,
    ds: Seq<(bool, Seq<int>, Seq<char>)>,
)
    requires
        src_unique(ms),
        dst_unique(ms),
        no_self(ms),
        groups_wf(ms, ds),
        groups_entries(ds).no_duplicates(),
        forall|x: int| #[trigger] groups_entries(ds).contains(x) ==> 0 <= x < ms.len(),
        forall|i: int| 0 <= i < ms.len() ==> fs.contains_key((#[trigger] ms[i]).0),
        forall|i: int|
            0 <= i < ms.len() && !has_next(ms, i) ==> !fs.contains_key((#[trigger] ms[i]).1),
        forall|t: int| 0 <= t < ds.len() && (#[trigger] ds[t]).0 ==> !fs.contains_key(ds[t].2),
        forall|t: int, i: int|
            0 <= t < ds.len() && (#[trigger] ds[t]).0 && 0 <= i < ms.len() ==> ds[t].2 != (
            #[trigger] ms[i]).0 && ds[t].2 != ms[i].1,
        forall|t: int, u: int|
            0 <= t < u < ds.len() && (#[trigger] ds[t]).0 && (#[trigger] ds[u]).0 ==> ds[t].2
                != ds[u].2,
    ensures
        edges_applicable(fs, groups_edges(ms, ds)),
        ({
            let fs2 = apply_edges(fs, groups_edges(ms, ds));
            &&& forall|i: int|
                #[trigger] groups_entries(ds).contains(i) ==> fs2.contains_key(ms[i].1)
                    && fs2[ms[i].1] == fs[ms[i].0]
            &&& forall|p: Seq<char>|
                !ds_path(ms, ds, p) ==> (#[trigger] fs2.contains_key(p) == fs.contains_key(p))
                    && (fs.contains_key(p) ==> fs2[p] == fs[p])
        }),
    decreases ds.len(),
{
    if ds.len() == 0 {
        assert(groups_entries(ds) =~= Seq::<int>::empty());
        assert(groups_edges(ms, ds) =~= Seq::<(Seq<char>, Seq<char>)>::empty());
        assert(apply_edges(fs, groups_edges(ms, ds)) == fs);
    } else {
        let dl = ds.drop_last();
        let cyclic = ds.last().0;
        let g = ds.last().1;
        let tmp = ds.last().2;
        let ea = groups_entries(dl);
        let e2 = groups_entries(ds);
        assert(forall|t: int| 0 <= t < dl.len() ==> #[trigger] dl[t] == ds[t]);
        assert(e2 == ea + g);
        assert(ds[ds.len() - 1] == ds.last());
        assert(if cyclic {
            is_cycle_group(ms, g)
        } else {
            is_chain_group(ms, g)
        });
        // split the duplicate-freedom of the combined entry list
        assert(ea.no_duplicates()) by {
            assert forall|i: int, j: int| 0 <= i < j < ea.len() implies ea[i] != ea[j] by {
                assert(e2[i] == ea[i] && e2[j] == ea[j]);
            }
        }
        assert(g.no_duplicates()) by {
            assert forall|i: int, j: int| 0 <= i < j < g.len() implies g[i] != g[j] by {
                assert(e2[ea.len() + i] == g[i] && e2[ea.len() + j] == g[j]);
            }
        }
        assert forall|x: int| #[trigger] g.contains(x) implies !ea.contains(x) by {
            if ea.contains(x) {
                let i = choose|i: int| 0 <= i < ea.len() && ea[i] == x;
                let j = choose|j: int| 0 <= j < g.len() && g[j] == x;
                assert(e2[i] == x && e2[ea.len() + j] == x);
            }
        }
        assert forall|x: int| #[trigger] ea.contains(x) implies e2.contains(x) by {
            lemma_contains_concat(ea, g, x);
        }
        assert forall|x: int| #[trigger] g.contains(x) implies e2.contains(x) by {
            lemma_contains_concat(ea, g, x);
        }
        // the earlier groups on their own
        assert(groups_wf(ms, dl));
        lemma_plan_execution(fs, ms, dl);
        let fs1 = apply_edges(fs, groups_edges(ms, dl));
        // entries already handled stay linked among themselves
        assert forall|i: int, j: int|
            #[trigger] is_next(ms, i, j) && ea.contains(i) implies ea.contains(j) by {
            lemma_entries_member(dl, i);
            let t = choose|t: int| 0 <= t < dl.len() && (#[trigger] dl[t]).1.contains(i);
            lemma_group_closed(ms, dl[t].0, dl[t].1);
            let a = choose|a: int| 0 <= a < dl[t].1.len() && dl[t].1[a] == i;
            assert(is_next(ms, dl[t].1[a], j));
            assert(dl[t].1.contains(j));
            lemma_member_entries(dl, t, j);
        }
        assert forall|i: int, j: int|
            #[trigger] is_next(ms, i, j) && ea.contains(j) implies ea.contains(i) by {
            lemma_entries_member(dl, j);
            let t = choose|t: int| 0 <= t < dl.len() && (#[trigger] dl[t]).1.contains(j);
            lemma_group_closed(ms, dl[t].0, dl[t].1);
            let a = choose|a: int| 0 <= a < dl[t].1.len() && dl[t].1[a] == j;
            assert(is_next(ms, i, dl[t].1[a]));
            assert(dl[t].1.contains(i));
            lemma_member_entries(dl, t, i);
        }
        lemma_group_closed(ms, cyclic, g);
        assert(forall|a: int| 0 <= a < g.len() ==> 0 <= #[trigger] g[a] < ms.len());
        assert(forall|a: int| 0 <= a < g.len() ==> #[trigger] g.contains(g[a]));
        // no path of this group belongs to an earlier group
        assert forall|a: int, p: Seq<char>|
            #![trigger ms[g[a]], ds_path(ms, dl, p)]
            0 <= a < g.len() && (ms[g[a]].0 == p || ms[g[a]].1 == p) implies !ds_path(
            ms,
            dl,
            p,
        ) by {
            if ds_path(ms, dl, p) {
                let t = choose|t: int|
                    0 <= t < dl.len() && (group_path(ms, (#[trigger] dl[t]).1, p) || (dl[t].0
                        && dl[t].2 == p));
                if dl[t].0 && dl[t].2 == p {
                    assert(ds[t].2 != ms[g[a]].0 && ds[t].2 != ms[g[a]].1);
                } else {
                    let b = choose|b: int|
                        0 <= b < dl[t].1.len() && ((#[trigger] ms[dl[t].1[b]]).0 == p
                            || ms[dl[t].1[b]].1 == p);
                    let j = dl[t].1[b];
                    assert(dl[t].1.contains(j));
                    lemma_member_entries(dl, t, j);
                    assert(ea.contains(j));
                    assert(0 <= j < ms.len());
                    if ms[j].0 == p && ms[g[a]].0 == p {
                        assert(j == g[a]);
                        assert(g.contains(j));
                    } else if ms[j].0 == p && ms[g[a]].1 == p {
                        assert(is_next(ms, g[a], j));
                        assert(g.contains(j));
                    } else if ms[j].1 == p && ms[g[a]].0 == p {
                        assert(is_next(ms, j, g[a]));
                        assert(g.contains(j));
                    } else {
                        assert(ms[j].1 == p && ms[g[a]].1 == p);
                        assert(j == g[a]);
                        assert(g.contains(j));
                    }
                    assert(!ea.contains(j));
                    assert(false);
                }
            }
        }
        // this group's sources are intact after the earlier groups ran
        assert forall|a: int| 0 <= a < g.len() implies fs1.contains_key(
            (#[trigger] ms[g[a]]).0,
        ) && fs1[ms[g[a]].0] == fs[ms[g[a]].0] by {
            assert(!ds_path(ms, dl, ms[g[a]].0));
            assert(fs.contains_key(ms[g[a]].0));
        }
        let last_edges = if cyclic {
            cycle_edges(ms, g, tmp)
        } else {
            chain_edges(ms, g)
        };
        if cyclic {
            assert(!fs1.contains_key(tmp)) by {
                assert(!fs.contains_key(tmp));
                assert(!ds_path(ms, dl, tmp)) by {
                    if ds_path(ms, dl, tmp) {
                        let t = choose|t: int|
                            0 <= t < dl.len() && (group_path(ms, (#[trigger] dl[t]).1, tmp) || (
                            dl[t].0 && dl[t].2 == tmp));
                        if dl[t].0 && dl[t].2 == tmp {
                            assert(ds[t].2 != ds[ds.len() - 1].2);
                        } else {
                            let b = choose|b: int|
                                0 <= b < dl[t].1.len() && ((#[trigger] ms[dl[t].1[b]]).0 == tmp
                                    || ms[dl[t].1[b]].1 == tmp);
                            let j = dl[t].1[b];
                            lemma_member_entries(dl, t, j);
                            assert(ea.contains(j));
                            assert(0 <= j < ms.len());
                            assert(ds[ds.len() - 1].2 != ms[j].0 && ds[ds.len() - 1].2
                                != ms[j].1);
                        }
                    }
                }
            }
            assert(forall|a: int|
                0 <= a < g.len() ==> (#[trigger] ms[g[a]]).0 != tmp && ms[g[a]].1 != tmp);
            lemma_cycle_execution(fs1, ms, g, tmp);
        } else {
            assert(!fs1.contains_key(ms[g[g.len() - 1]].1)) by {
                assert(!has_next(ms, g[g.len() - 1]));
                assert(!fs.contains_key(ms[g[g.len() - 1]].1));
                assert(!ds_path(ms, dl, ms[g[g.len() - 1]].1));
            }
            lemma_chain_execution(fs1, ms, g);
        }
        let fs2 = apply_edges(fs1, last_edges);
        assert(groups_edges(ms, ds) == groups_edges(ms, dl) + last_edges) by {
            assert(ds.drop_last() =~= dl);
        }
        lemma_apply_concat(fs, groups_edges(ms, dl), last_edges);
        assert(apply_edges(fs, groups_edges(ms, ds)) == fs2);
        lemma_applicable_concat(fs, groups_edges(ms, dl), last_edges);
        // every covered entry's rename took effect
        assert forall|i: int| #[trigger] e2.contains(i) implies fs2.contains_key(ms[i].1)
            && fs2[ms[i].1] == fs[ms[i].0] by {
            lemma_contains_concat(ea, g, i);
            if g.contains(i) {
                let a = choose|a: int| 0 <= a < g.len() && g[a] == i;
                assert(fs2.contains_key(ms[g[a]].1) && fs2[ms[g[a]].1] == fs1[ms[g[a]].0]);
                assert(fs1[ms[g[a]].0] == fs[ms[g[a]].0]);
            } else {
                assert(ea.contains(i));
                assert(fs1.contains_key(ms[i].1) && fs1[ms[i].1] == fs[ms[i].0]);
                assert(!group_path(ms, g, ms[i].1)) by {
                    if group_path(ms, g, ms[i].1) {
                        let a = choose|a: int|
                            0 <= a < g.len() && ((#[trigger] ms[g[a]]).0 == ms[i].1
                                || ms[g[a]].1 == ms[i].1);
                        assert(0 <= i < ms.len());
                        if ms[g[a]].0 == ms[i].1 {
                            assert(is_next(ms, i, g[a]));
                            assert(ea.contains(g[a]));
                            assert(g.contains(g[a]));
                        } else {
                            assert(g[a] == i);
                            assert(g.contains(i));
                        }
                    }
                }
                if cyclic {
                    assert(ms[i].1 != tmp) by {
                        assert(ds[ds.len() - 1].2 != ms[i].1);
                    }
                }
                assert(fs2.contains_key(ms[i].1) == fs1.contains_key(ms[i].1));
                assert(fs2[ms[i].1] == fs1[ms[i].1]);
            }
        }
        // everything outside the plan is untouched
        assert forall|p: Seq<char>| !ds_path(ms, ds, p) implies (#[trigger] fs2.contains_key(p)
            == fs.contains_key(p)) && (fs.contains_key(p) ==> fs2[p] == fs[p]) by {
            assert(!ds_path(ms, dl, p)) by {
                if ds_path(ms, dl, p) {
                    let t = choose|t: int|
                        0 <= t < dl.len() && (group_path(ms, (#[trigger] dl[t]).1, p)
                            || ((dl[t]).0 && dl[t].2 == p));
                    assert(group_path(ms, (ds[t]).1, p) || (ds[t].0 && ds[t].2 == p));
                    assert(ds_path(ms, ds, p));
                }
            }
            assert(!group_path(ms, g, p)) by {
                if group_path(ms, g, p) {
                    assert(group_path(ms, (ds[ds.len() - 1]).1, p));
                    assert(ds_path(ms, ds, p));
                }
            }
            if cyclic {
                assert(p != tmp) by {
                    if p == tmp {
                        assert((ds[ds.len() - 1]).0 && (ds[ds.len() - 1]).2 == p);
                        assert(ds_path(ms, ds, p));
                    }
                }
            }
            assert(fs1.contains_key(p) == fs.contains_key(p));
            if fs.contains_key(p) {
                assert(fs1[p] == fs[p]);
            }
            assert(fs2.contains_key(p) == fs1.contains_key(p));
            if fs1.contains_key(p) {
                assert(fs2[p] == fs1[p]);
            }
        }
    }
}

/// `p` placed under `dir`: a rooted path stands alone, a relative one is
/// joined below the directory.
pub open spec fn join_under(dir: Seq<char>, p: Seq<char>) -> Seq<char> {
    if crate::filepath::rooted_path(p) {
        p
    } else {
        join_view(dir, p)
    }
}

/// Each edge's two paths placed under `dir`.
fn prefix_edges(edges: &Vec<Edge>, dir: &str) -> (r: Vec<Edge>)
    ensures
        r@.len() == edges@.len(),
        forall|t: int|
            0 <= t < edges@.len() ==> (#[trigger] r@[t]).src@ == join_under(
                dir@,
                edges@[t].src@,
            ) && r@[t].dst@ == join_under(dir@, edges@[t].dst@),
{
    let mut out: Vec<Edge> = Vec::new();
    let mut i: usize = 0;
    while i < edges.len()
        invariant
            i <= edges@.len(),
            out@.len() == i,
            forall|t: int|
                0 <= t < i ==> (#[trigger] out@[t]).src@ == join_under(dir@, edges@[t].src@)
                    && out@[t].dst@ == join_under(dir@, edges@[t].dst@),
        decreases edges@.len() - i,
    {
        let src = join_one_under(dir, edges[i].src.as_str());
        let dst = join_one_under(dir, edges[i].dst.as_str());
        out.push(Edge { src, dst });
        i += 1;
    }
    out
}

/// One path placed under `dir`.
fn join_one_under(dir: &str, p: &str) -> (r: String)
    ensures
        r@ == join_under(dir@, p@),
{
    let n = p.unicode_len();
    if n > 0 && p.get_char(0) == '/' {
        p.to_owned()
    } else {
        join_path(dir, p)
    }
}

/// The error text reported for the first rejected entry `i`.
pub open spec fn plan_error_text(vs: Seq<(Seq<char>, Seq<char>)>, i: int) -> Seq<char> {
    let cs = cleaned_views(vs);
    if empty_at(vs, i) {
        "Path cannot be empty."@
    } else if dup_src_at(cs, i) {
        "Duplicate source "@ + cs[i].0
    } else {
        "Duplicate destination "@ + cs[i].1
    }
}

/// The rollback warnings rendered one per line, each on a fresh line
/// after the primary error's text.
pub open spec fn warnings_text(ws: Seq<ExecError>) -> Seq<char>
    decreases ws.len(),
{
    if ws.len() == 0 {
        Seq::empty()
    } else {
        seq!['\n'] + exec_error_text(ws[0]) + warnings_text(ws.drop_first())
    }
}

/// Extending the warnings by one appends one more line.
proof fn lemma_warnings_text_push(ws: Seq<ExecError>, x: ExecError)
    ensures
        warnings_text(ws.push(x)) == warnings_text(ws) + seq!['\n'] + exec_error_text(x),
    decreases ws.len(),
{
    if ws.len() == 0 {
        assert(ws.push(x)[0] == x);
        assert(ws.push(x).drop_first() =~= Seq::<ExecError>::empty());
        assert(warnings_text(Seq::<ExecError>::empty()) == Seq::<char>::empty());
        assert(warnings_text(ws.push(x)) == seq!['\n'] + exec_error_text(x) + warnings_text(
            ws.push(x).drop_first(),
        ));
        assert(warnings_text(ws) == Seq::<char>::empty());
        assert(seq!['\n'] + exec_error_text(x) + Seq::<char>::empty() =~= Seq::<char>::empty()
            + seq!['\n'] + exec_error_text(x));
    } else {
        let e0 = exec_error_text(ws[0]);
        let tx = exec_error_text(x);
        let df = ws.drop_first();
        assert(ws.push(x)[0] == ws[0]);
        assert(ws.push(x).drop_first() =~= df.push(x));
        lemma_warnings_text_push(df, x);
        assert(warnings_text(ws.push(x)) == seq!['\n'] + e0 + warnings_text(df.push(x)));
        assert(warnings_text(df.push(x)) == warnings_text(df) + seq!['\n'] + tx);
        assert(warnings_text(ws) == seq!['\n'] + e0 + warnings_text(df));
        assert(seq!['\n'] + e0 + (warnings_text(df) + seq!['\n'] + tx) =~= (seq!['\n'] + e0
            + warnings_text(df)) + seq!['\n'] + tx);
    }
}

/// The directory every planned path is taken relative to: the given one,
/// or the empty relative directory, under which every path stands alone.
pub open spec fn dir_view(dir: Option<&String>) -> Seq<char> {
    match dir {
        Some(d) => d@,
        None => Seq::empty(),
    }
}

/// `pe` is the planned edge list of the decomposition `ds`, each path
/// placed under `dir`.
pub open spec fn prefixed_plan(
    dir: Seq<char>,
    ms: Seq<(Seq<char>, Seq<char>)>,
    ds: Seq<(bool, Seq<int>, Seq<char>)>,
    pe: Seq<Edge>,
) -> bool {
    &&& pe.len() == groups_edges(ms, ds).len()
    &&& forall|t: int|
        0 <= t < pe.len() ==> (#[trigger] pe[t]).src@ == join_under(
            dir,
            groups_edges(ms, ds)[t].0,
        ) && pe[t].dst@ == join_under(dir, groups_edges(ms, ds)[t].1)
}

/// Plans and executes the whole batch: validation errors and execution
/// errors come back as readable text naming the offending paths, and a
/// failed execution is rolled back first. With `dir` given, every planned
/// path is taken relative to that directory.
pub fn rename<F: Fn(String, String) -> Result<(), String>, G: Fn(String) -> bool, H: Fn(
    String,
) -> Result<(), String>>(
    files: &Vec<(String, String)>,
    dir: Option<&String>,
    rng: &mut RandomPathGenerator,
    rename_fs: &F,
    exists_fs: &G,
    mkdirs: &H,
) -> (r: Result<(), String>)
    requires
        forall|a: String, b: String| call_requires(*rename_fs, (a, b)),
        forall|a: String| call_requires(*exists_fs, (a,)),
        forall|a: String| call_requires(*mkdirs, (a,)),
    ensures
        !mapping_ok(pair_views(files@)) ==> (r matches Err(s) && exists|i: int|
            0 <= i < pair_views(files@).len() && #[trigger] bad_at(pair_views(files@), i) && (
            forall|k: int| 0 <= k < i ==> !bad_at(pair_views(files@), k)) && s@
                == plan_error_text(pair_views(files@), i)),
        r is Ok ==> mapping_ok(pair_views(files@)),
        // success means every planned edge, placed under `dir`, went
        // through the rename operation successfully
        r is Ok ==> ({
            let ms = live_views(cleaned_views(pair_views(files@)));
            exists|ds: Seq<(bool, Seq<int>, Seq<char>)>, pe: Seq<Edge>|
                {
                    &&& #[trigger] groups_wf(ms, ds)
                    &&& #[trigger] prefixed_plan(dir_view(dir), ms, ds, pe)
                    &&& groups_partition(ms, ds)
                    &&& cycle_tmps_ok(*exists_fs, ms, ds)
                    &&& forall|t: int|
                        0 <= t < pe.len() ==> call_ensures(
                            *rename_fs,
                            ((#[trigger] pe[t]).src, pe[t].dst),
                            Ok(()),
                        )
                }
        }),
        // an execution failure returns the primary error's text with the
        // rollback warnings appended, the edges before the failing one
        // were applied and then dealt with during rollback, and the
        // failure itself carries the failing calls' evidence
        mapping_ok(pair_views(files@)) ==> ({
            let ms = live_views(cleaned_views(pair_views(files@)));
            r matches Err(s) ==> exists|ds: Seq<(bool, Seq<int>, Seq<char>)>, pe: Seq<Edge>|
                {
                    &&& #[trigger] groups_wf(ms, ds)
                    &&& #[trigger] prefixed_plan(dir_view(dir), ms, ds, pe)
                    &&& groups_partition(ms, ds)
                    &&& cycle_tmps_ok(*exists_fs, ms, ds)
                    &&& exists|f: ExecFailure, i: int|
                        {
                            &&& 0 <= i < pe.len()
                            &&& #[trigger] edge_failed(
                                *rename_fs,
                                *exists_fs,
                                *mkdirs,
                                f.error,
                                pe[i].src,
                                pe[i].dst,
                            )
                            &&& s@ == exec_error_text(f.error) + warnings_text(f.warnings@)
                            &&& !(f.error is RollbackFailed)
                            &&& forall|t: int|
                                0 <= t < i ==> call_ensures(
                                    *rename_fs,
                                    ((#[trigger] pe[t]).src, pe[t].dst),
                                    Ok(()),
                                )
                            &&& forall|t: int|
                                0 <= t < i ==> edge_undone(
                                    *rename_fs,
                                    f.warnings@,
                                    #[trigger] pe[t],
                                )
                        }
                }
        }),
{
    let ghost vs = pair_views(files@);
    let ghost msv = live_views(cleaned_views(vs));
    let renames = match build_renames(files, rng, exists_fs) {
        Ok(es) => es,
        Err(e) => {
            let msg = e.message();
            proof {
                let vs2 = pair_views(files@);
                let cs = cleaned_views(vs2);
                let i = choose|i: int|
                    0 <= i < vs2.len() && #[trigger] bad_at(vs2, i) && (forall|k: int|
                        0 <= k < i ==> !bad_at(vs2, k)) && plan_error_matches(e, vs2, i);
                if empty_at(vs2, i) {
                    assert(e is EmptyPath);
                } else if dup_src_at(cs, i) {
                    let p = e->DuplicateSource_0;
                    assert(e == PlanError::DuplicateSource(p));
                    assert(p@ == cs[i].0);
                } else {
                    let p = e->DuplicateDestination_0;
                    assert(e == PlanError::DuplicateDestination(p));
                    assert(p@ == cs[i].1);
                }
                assert(msg@ == plan_error_text(vs2, i));
                assert(bad_at(vs2, i));
            }
            return Err(msg);
        },
    };
    let ghost plan = choose|ds: Seq<(bool, Seq<int>, Seq<char>)>|
        {
            &&& #[trigger] groups_wf(msv, ds)
            &&& groups_partition(msv, ds)
            &&& cycle_tmps_ok(*exists_fs, msv, ds)
            &&& edge_views(renames@) == groups_edges(msv, ds)
            &&& renames@.len() == groups_entries(ds).len() + groups_cycle_count(ds)
        };
    let ghost renv = renames@;
    let prefixed = match dir {
        Some(d) => prefix_edges(&renames, d.as_str()),
        None => renames,
    };
    proof {
        assert(edge_views(renv).len() == renv.len());
        assert(prefixed_plan(dir_view(dir), msv, plan, prefixed@)) by {
            assert forall|t: int| 0 <= t < prefixed@.len() implies (#[trigger] prefixed@[t]).src@
                == join_under(dir_view(dir), groups_edges(msv, plan)[t].0) && prefixed@[t].dst@
                == join_under(dir_view(dir), groups_edges(msv, plan)[t].1) by {
                assert(edge_views(renv)[t] == groups_edges(msv, plan)[t]);
                if dir is None {
                    assert(prefixed@[t] == renv[t]);
                    assert(join_under(Seq::empty(), renv[t].src@) == renv[t].src@);
                    assert(join_under(Seq::empty(), renv[t].dst@) == renv[t].dst@);
                }
            }
        }
    }
    match execute(&prefixed, rename_fs, exists_fs, mkdirs) {
        Ok(_u) => {
            proof {
                assert(groups_wf(msv, plan));
                assert(forall|t: int|
                    0 <= t < prefixed@.len() ==> call_ensures(
                        *rename_fs,
                        ((#[trigger] prefixed@[t]).src, prefixed@[t].dst),
                        Ok(()),
                    ));
            }
            Ok(())
        },
        Err(failure) => {
            let ghost fi = choose|i: int|
                {
                    &&& 0 <= i < prefixed@.len()
                    &&& edge_failed(
                        *rename_fs,
                        *exists_fs,
                        *mkdirs,
                        failure.error,
                        (#[trigger] prefixed@[i]).src,
                        prefixed@[i].dst,
                    )
                    &&& forall|t: int|
                        0 <= t < i ==> call_ensures(
                            *rename_fs,
                            ((#[trigger] prefixed@[t]).src, prefixed@[t].dst),
                            Ok(()),
                        )
                    &&& forall|t: int|
                        0 <= t < i ==> edge_undone(
                            *rename_fs,
                            failure.warnings@,
                            #[trigger] prefixed@[t],
                        )
                };
            let mut text = failure.error.message();
            proof {
                reveal_strlit("\n");
                assert("\n"@ =~= seq!['\n']);
                assert(warnings_text(failure.warnings@.take(0)) =~= Seq::<char>::empty());
                assert(text@ =~= exec_error_text(failure.error) + warnings_text(
                    failure.warnings@.take(0),
                ));
            }
            let mut j: usize = 0;
            while j < failure.warnings.len()
                invariant
                    j <= failure.warnings@.len(),
                    "\n"@ == seq!['\n'],
                    text@ == exec_error_text(failure.error) + warnings_text(
                        failure.warnings@.take(j as int),
                    ),
                decreases failure.warnings@.len() - j,
            {
                text.append("\n");
                let w = failure.warnings[j].message();
                text.append(w.as_str());
                proof {
                    let ws = failure.warnings@;
                    lemma_warnings_text_push(ws.take(j as int), ws[j as int]);
                    assert(ws.take(j as int).push(ws[j as int]) =~= ws.take(j + 1));
                    assert(text@ =~= exec_error_text(failure.error) + warnings_text(
                        ws.take(j + 1),
                    ));
                }
                j += 1;
            }
            proof {
                assert(failure.warnings@.take(failure.warnings@.len() as int)
                    =~= failure.warnings@);
                assert(edge_failed(
                    *rename_fs,
                    *exists_fs,
                    *mkdirs,
                    failure.error,
                    prefixed@[fi].src,
                    prefixed@[fi].dst,
                ));
            }
            Err(text)
        },
    }
}

} // verus!
