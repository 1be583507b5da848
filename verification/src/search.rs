//! Breadth-first proximity search: find the evaluated, eligible commits
//! closest to a start vertex over the undirected view of the bisection
//! graph, never reporting the bad tip, asking the caller's eligibility
//! predicate only for targets on the current frontier, and failing fast
//! when that predicate fails.

use vstd::prelude::*;
use crate::graph::CommitGraph;
use crate::oid::{contains_oid, Oid};

verus! {

broadcast use vstd::seq_lib::group_seq_properties;

/// The undirected neighbors of a vertex: its parents and its children.
pub open spec fn neighbors(g: CommitGraph, k: Seq<u8>) -> Set<Seq<u8>> {
    g.parents_of(k).union(g.children_of(k))
}

/// One breadth-first expansion: every neighbor of a set's members.
pub open spec fn expand(g: CommitGraph, s: Set<Seq<u8>>) -> Set<Seq<u8>> {
    Set::new(|x: Seq<u8>| exists|k: Seq<u8>| #[trigger] s.contains(k) && neighbors(g, k).contains(x))
}

/// The frontier of round `d`: the vertices first reached after `d`
/// expansions from the start vertex.
pub open spec fn ring(g: CommitGraph, start: Seq<u8>, d: nat) -> Set<Seq<u8>>
    decreases d, 0int,
{
    if d == 0 {
        set![start]
    } else {
        expand(g, ring(g, start, (d - 1) as nat)).difference(visited(g, start, (d - 1) as nat))
    }
}

/// Every vertex reached within the first `d` rounds.
pub open spec fn visited(g: CommitGraph, start: Seq<u8>, d: nat) -> Set<Seq<u8>>
    decreases d, 1int,
{
    if d == 0 {
        set![start]
    } else {
        visited(g, start, (d - 1) as nat).union(ring(g, start, d))
    }
}

/// Once a frontier is empty, every later frontier is empty.
proof fn lemma_ring_empty_beyond(g: CommitGraph, start: Seq<u8>, d: nat, d2: nat)
    requires
        ring(g, start, d) =~= Set::<Seq<u8>>::empty(),
        d <= d2,
    ensures
        ring(g, start, d2) =~= Set::<Seq<u8>>::empty(),
    decreases d2 - d,
{
    if d2 > d {
        lemma_ring_empty_beyond(g, start, d, (d2 - 1) as nat);
        assert(expand(g, ring(g, start, (d2 - 1) as nat)) =~= Set::<Seq<u8>>::empty());
    }
}

/// The targets the search may report: the given ones, less the bad tip.
pub open spec fn effective_targets(g: CommitGraph, targets: Seq<Seq<u8>>) -> Set<Seq<u8>> {
    match g.bad {
        Some(b) => targets.to_set().remove(b@),
        None => targets.to_set(),
    }
}

/// Whether the predicate can answer "eligible" for this identifier.
pub open spec fn can_approve<F: Fn(&Oid) -> Result<bool, String>>(f: F, k: Seq<u8>) -> bool {
    exists|o: &Oid| o@ == k && #[trigger] call_ensures(f, (o,), Ok(true))
}

/// Whether the predicate can answer "not eligible" for this identifier.
pub open spec fn can_reject<F: Fn(&Oid) -> Result<bool, String>>(f: F, k: Seq<u8>) -> bool {
    exists|o: &Oid| o@ == k && #[trigger] call_ensures(f, (o,), Ok(false))
}

/// Whether the predicate can fail with this error for some identifier.
pub open spec fn can_error<F: Fn(&Oid) -> Result<bool, String>>(f: F, e: String) -> bool {
    exists|o: &Oid| #[trigger] call_ensures(f, (o,), Result::<bool, String>::Err(e))
}

/// A successful search outcome at depth `d`: the result holds exactly
/// the eligible targets of the frontier of round `d`, every other target
/// there was answered ineligible, and so was every target of any nearer
/// round.
pub open spec fn closest_result_at<F: Fn(&Oid) -> Result<bool, String>>(
    f: F,
    g: CommitGraph,
    start: Seq<u8>,
    tset: Set<Seq<u8>>,
    res: Set<Seq<u8>>,
    d: nat,
) -> bool {
    &&& (forall|k: Seq<u8>| #[trigger] res.contains(k) ==> ring(g, start, d).contains(k)
        && tset.contains(k) && can_approve(f, k))
    &&& (forall|k: Seq<u8>| ring(g, start, d).contains(k) && tset.contains(k) && !res.contains(k)
        ==> can_reject(f, k))
    &&& (forall|j: nat, k: Seq<u8>| j < d && #[trigger] ring(g, start, j).contains(k)
        && tset.contains(k) ==> can_reject(f, k))
}

/// Determinism of the search: when the predicate's answers are fixed —
/// no identifier can be answered both eligible and ineligible — any two
/// nonempty successful outcomes over the same graph, start and targets
/// hold the same identifiers, whatever rounds produced them.
pub proof fn lemma_closest_deterministic<F: Fn(&Oid) -> Result<bool, String>>(
    f: F,
    g: CommitGraph,
    start: Seq<u8>,
    tset: Set<Seq<u8>>,
    r1: Set<Seq<u8>>,
    d1: nat,
    r2: Set<Seq<u8>>,
    d2: nat,
)
    requires
        forall|k: Seq<u8>| !(#[trigger] can_approve(f, k) && can_reject(f, k)),
        closest_result_at(f, g, start, tset, r1, d1),
        closest_result_at(f, g, start, tset, r2, d2),
        exists|k: Seq<u8>| r1.contains(k),
        exists|k: Seq<u8>| r2.contains(k),
    ensures
        r1 == r2,
{
    let k1 = choose|k: Seq<u8>| r1.contains(k);
    let k2 = choose|k: Seq<u8>| r2.contains(k);
    if d1 < d2 {
        assert(ring(g, start, d1).contains(k1) && tset.contains(k1));
        assert(can_approve(f, k1));
        assert(can_reject(f, k1));
        assert(false);
    }
    if d2 < d1 {
        assert(ring(g, start, d2).contains(k2) && tset.contains(k2));
        assert(can_approve(f, k2));
        assert(can_reject(f, k2));
        assert(false);
    }
    assert forall|k: Seq<u8>| r1.contains(k) implies r2.contains(k) by {
        if !r2.contains(k) {
            assert(ring(g, start, d1).contains(k) && tset.contains(k));
            assert(can_approve(f, k));
            assert(can_reject(f, k));
        }
    }
    assert forall|k: Seq<u8>| r2.contains(k) implies r1.contains(k) by {
        if !r1.contains(k) {
            assert(ring(g, start, d2).contains(k) && tset.contains(k));
            assert(can_approve(f, k));
            assert(can_reject(f, k));
        }
    }
    assert(r1 =~= r2);
}

/// Determinism across exhaustion: when the predicate's answers are fixed
/// and one search run found every reachable target ineligible, no run
/// can have a nonempty outcome.
pub proof fn lemma_closest_exhausted_unique<F: Fn(&Oid) -> Result<bool, String>>(
    f: F,
    g: CommitGraph,
    start: Seq<u8>,
    tset: Set<Seq<u8>>,
    r2: Set<Seq<u8>>,
    d2: nat,
)
    requires
        forall|k: Seq<u8>| !(#[trigger] can_approve(f, k) && can_reject(f, k)),
        forall|j: nat, k: Seq<u8>| #[trigger] ring(g, start, j).contains(k) && tset.contains(k)
            ==> can_reject(f, k),
        closest_result_at(f, g, start, tset, r2, d2),
    ensures
        r2 == Set::<Seq<u8>>::empty(),
{
    assert forall|k: Seq<u8>| !(#[trigger] r2.contains(k)) by {
        if r2.contains(k) {
            assert(ring(g, start, d2).contains(k) && tset.contains(k));
            assert(can_approve(f, k));
            assert(can_reject(f, k));
        }
    }
    assert(r2 =~= Set::<Seq<u8>>::empty());
}

/// Append to `dst` whatever `src` holds that stands in neither `checked`
/// nor `cand` nor `dst` itself.
fn add_new(dst: &mut Vec<Oid>, src: &Vec<Oid>, checked: &Vec<Oid>, cand: &Vec<Oid>)
    requires
        old(dst).deep_view().no_duplicates(),
    ensures
        final(dst).deep_view().no_duplicates(),
        forall|k: Seq<u8>| #[trigger] final(dst).deep_view().contains(k) <==> (old(
            dst,
        ).deep_view().contains(k) || (src.deep_view().contains(k)
            && !checked.deep_view().contains(k) && !cand.deep_view().contains(k))),
{
    let n = src.len();
    let mut u: usize = 0;
    while u < n
        invariant
            u <= n,
            n == src@.len(),
            dst.deep_view().no_duplicates(),
            forall|k: Seq<u8>| #[trigger] dst.deep_view().contains(k) <==> (old(
                dst,
            ).deep_view().contains(k) || (src.deep_view().take(u as int).contains(k)
                && !checked.deep_view().contains(k) && !cand.deep_view().contains(k))),
        decreases n - u,
    {
        let x = &src[u];
        let ghost xv = src.deep_view()[u as int];
        proof {
            assert(xv == src@[u as int]@);
            assert(src.deep_view().take(u + 1).contains(xv)) by {
                assert(src.deep_view().take(u + 1)[u as int] == xv);
            }
        }
        if !contains_oid(checked, x) && !contains_oid(cand, x) && !contains_oid(dst, x) {
            let ghost pre = dst.deep_view();
            dst.push(x.clone());
            proof {
                assert(dst.deep_view() =~~= pre.push(xv));
                assert forall|k: Seq<u8>|
                    (old(dst).deep_view().contains(k) || (src.deep_view().take(u + 1).contains(k)
                        && !checked.deep_view().contains(k)
                        && !cand.deep_view().contains(k))) implies #[trigger] dst.deep_view().contains(
                    k,
                ) by {
                    if k != xv && !old(dst).deep_view().contains(k) {
                        crate::graph::lemma_take_step(src.deep_view(), u as int, k);
                        assert(pre.contains(k));
                    }
                }
            }
        } else {
            proof {
                assert forall|k: Seq<u8>|
                    (old(dst).deep_view().contains(k) || (src.deep_view().take(u + 1).contains(k)
                        && !checked.deep_view().contains(k)
                        && !cand.deep_view().contains(k))) implies #[trigger] dst.deep_view().contains(
                    k,
                ) by {
                    if k != xv && !old(dst).deep_view().contains(k) {
                        crate::graph::lemma_take_step(src.deep_view(), u as int, k);
                    }
                }
            }
        }
        proof {
            assert forall|k: Seq<u8>| #[trigger] dst.deep_view().contains(k) implies (old(
                dst,
            ).deep_view().contains(k) || (src.deep_view().take(u + 1).contains(k)
                && !checked.deep_view().contains(k) && !cand.deep_view().contains(k))) by {
                if !old(dst).deep_view().contains(k) && !src.deep_view().take(u as int).contains(k) {
                    assert(k == xv);
                }
            }
        }
        u += 1;
    }
    proof {
        assert(src.deep_view().take(n as int) =~= src.deep_view());
    }
}

/// Find the evaluated commits closest to `start`: walk the undirected
/// graph breadth first; at each round, ask the predicate about every
/// frontier member that is a target (the bad tip never is one); report
/// the eligible ones as soon as a round has any, all ties together; stop
/// with the empty set when the reachable part of the graph is exhausted;
/// and propagate the predicate's first error.
pub fn closest_commits<F: Fn(&Oid) -> Result<bool, String>>(
    start: Oid,
    graph: CommitGraph,
    targets: Vec<Oid>,
    filter: F,
) -> (r: Result<Vec<Oid>, String>)
    requires
        graph.wf(),
        graph.contains_key(start@),
        forall|o: &Oid| #[trigger] call_requires(filter, (o,)),
    ensures
        ({
            let tset = effective_targets(graph, targets.deep_view());
            match r {
                Ok(res) => {
                    let rset = res.deep_view().to_set();
                    &&& res.deep_view().no_duplicates()
                    &&& (graph.bad matches Some(b) ==> !rset.contains(b@))
                    &&& (res@.len() == 0 ==> (forall|j: nat, k: Seq<u8>|
                        #[trigger] ring(graph, start@, j).contains(k) && tset.contains(k)
                            ==> can_reject(filter, k)))
                    &&& (res@.len() > 0 ==> (exists|d: nat|
                        #[trigger] closest_result_at(filter, graph, start@, tset, rset, d)))
                },
                Err(e) => can_error(filter, e),
            }
        }),
{
    let ghost sv = start@;
    let ghost tset = effective_targets(graph, targets.deep_view());

    // Drop the bad tip from the targets, and duplicates with it.
    let mut eff: Vec<Oid> = Vec::new();
    let tn = targets.len();
    let mut u: usize = 0;
    while u < tn
        invariant
            u <= tn,
            tn == targets@.len(),
            tset == effective_targets(graph, targets.deep_view()),
            eff.deep_view().no_duplicates(),
            forall|k: Seq<u8>| #[trigger] eff.deep_view().contains(k) <==> (
            targets.deep_view().take(u as int).contains(k) && tset.contains(k)),
        decreases tn - u,
    {
        let t = &targets[u];
        let ghost txv = targets.deep_view()[u as int];
        proof {
            assert(txv == targets@[u as int]@);
            assert(targets.deep_view().take(u + 1)[u as int] == txv);
        }
        let is_bad = match &graph.bad {
            Some(b) => t == b,
            None => false,
        };
        if !is_bad && !contains_oid(&eff, t) {
            let ghost pre = eff.deep_view();
            eff.push(t.clone());
            proof {
                assert(eff.deep_view() =~~= pre.push(txv));
                assert(tset.contains(txv));
            }
        }
        proof {
            assert forall|k: Seq<u8>|
                targets.deep_view().take(u + 1).contains(k) && tset.contains(
                    k,
                ) implies #[trigger] eff.deep_view().contains(k) by {
                if k != txv {
                    crate::graph::lemma_take_step(targets.deep_view(), u as int, k);
                }
            }
            assert forall|k: Seq<u8>| #[trigger] eff.deep_view().contains(k) implies (
            targets.deep_view().take(u + 1).contains(k) && tset.contains(k)) by {}
        }
        u += 1;
    }
    proof {
        assert(targets.deep_view().take(tn as int) =~= targets.deep_view());
    }

    let mut cand: Vec<Oid> = Vec::new();
    cand.push(start);
    let mut checked: Vec<Oid> = Vec::new();
    let ghost mut d: nat = 0;
    proof {
        assert(cand.deep_view() =~~= seq![sv]);
        assert(cand.deep_view().to_set() =~= ring(graph, sv, 0));
        assert(cand.deep_view().to_set() <= graph.key_set()) by {
            assert(cand.deep_view().to_set().contains(sv));
        }
    }
    loop
        invariant
            graph.wf(),
            sv == start@,
            tset == effective_targets(graph, targets.deep_view()),
            eff.deep_view().no_duplicates(),
            forall|k: Seq<u8>| #[trigger] eff.deep_view().contains(k) <==> (
            targets.deep_view().contains(k) && tset.contains(k)),
            forall|o: &Oid| #[trigger] call_requires(filter, (o,)),
            cand.deep_view().no_duplicates(),
            checked.deep_view().no_duplicates(),
            cand.deep_view().to_set() =~= ring(graph, sv, d),
            checked.deep_view().to_set() =~= (if d == 0 {
                Set::<Seq<u8>>::empty()
            } else {
                visited(graph, sv, (d - 1) as nat)
            }),
            forall|k: Seq<u8>| !(#[trigger] cand.deep_view().contains(k)
                && checked.deep_view().contains(k)),
            cand.deep_view().to_set() <= graph.key_set(),
            checked.deep_view().to_set() <= graph.key_set(),
            checked@.len() + cand@.len() <= graph.commits@.len(),
            forall|j: nat, k: Seq<u8>| j < d && #[trigger] ring(graph, sv, j).contains(k)
                && tset.contains(k) ==> can_reject(filter, k),
        decreases graph.commits@.len() - checked@.len(),
    {
        if cand.len() == 0 {
            proof {
                assert(cand.deep_view().to_set() =~= Set::<Seq<u8>>::empty());
                assert forall|j: nat, k: Seq<u8>| #[trigger] ring(graph, sv, j).contains(k)
                    && tset.contains(k) implies can_reject(filter, k) by {
                    if j >= d {
                        lemma_ring_empty_beyond(graph, sv, d, j);
                    }
                }
            }
            let res: Vec<Oid> = Vec::new();
            proof {
                assert(res.deep_view().len() == 0);
                assert(res.deep_view().no_duplicates());
                assert(forall|k: Seq<u8>| !(#[trigger] res.deep_view().to_set().contains(k)));
            }
            return Ok(res);
        }

        let ghost canddv = cand.deep_view();

        // Ask the predicate about every frontier member that is a target.
        let mut found: Vec<Oid> = Vec::new();
        let cn = cand.len();
        let mut ci: usize = 0;
        while ci < cn
            invariant
                ci <= cn,
                cn == cand@.len(),
                canddv == cand.deep_view(),
                canddv.no_duplicates(),
                sv == start@,
                tset == effective_targets(graph, targets.deep_view()),
                eff.deep_view().no_duplicates(),
                forall|k: Seq<u8>| #[trigger] eff.deep_view().contains(k) <==> (
                targets.deep_view().contains(k) && tset.contains(k)),
                forall|o: &Oid| #[trigger] call_requires(filter, (o,)),
                found.deep_view().no_duplicates(),
                forall|k: Seq<u8>| #[trigger] found.deep_view().contains(k) ==> (canddv.take(
                    ci as int,
                ).contains(k) && tset.contains(k) && can_approve(filter, k)),
                forall|v: int| 0 <= v < ci && tset.contains(#[trigger] canddv[v]) ==> (
                found.deep_view().contains(canddv[v]) || can_reject(filter, canddv[v])),
            decreases cn - ci,
        {
            let c = &cand[ci];
            let ghost cv = canddv[ci as int];
            proof {
                assert(cv == cand@[ci as int]@);
            }
            let queried = contains_oid(&eff, c);
            if !queried {
                proof {
                    assert(!tset.contains(cv)) by {
                        if tset.contains(cv) {
                            assert(targets.deep_view().to_set().contains(cv));
                            assert(eff.deep_view().contains(cv));
                            assert(false);
                        }
                    }
                }
            }
            if queried {
                let res = filter(c);
                match res {
                    Ok(true) => {
                        proof {
                            assert(call_ensures(filter, (c,), Ok(true)));
                            assert(can_approve(filter, cv));
                            assert(!found.deep_view().contains(cv)) by {
                                if found.deep_view().contains(cv) {
                                    assert(canddv.take(ci as int).contains(cv));
                                    let w = choose|w: int|
                                        0 <= w < ci && #[trigger] canddv.take(ci as int)[w] == cv;
                                    assert(canddv[w] == canddv[ci as int]);
                                    assert(false);
                                }
                            }
                        }
                        let ghost pre = found.deep_view();
                        found.push(c.clone());
                        proof {
                            assert(found.deep_view() =~~= pre.push(cv));
                            assert(canddv.take(ci + 1)[ci as int] == cv);
                            assert forall|k: Seq<u8>| #[trigger] found.deep_view().contains(
                                k,
                            ) implies (canddv.take(ci + 1).contains(k) && tset.contains(k)
                                && can_approve(filter, k)) by {
                                if k != cv {
                                    assert(pre.contains(k));
                                    assert(canddv.take(ci as int).contains(k));
                                }
                            }
                        }
                    },
                    Ok(false) => {
                        proof {
                            assert(call_ensures(filter, (c,), Ok(false)));
                            assert(can_reject(filter, cv));
                        }
                    },
                    Err(e) => {
                        proof {
                            assert(call_ensures(filter, (c,), Result::<bool, String>::Err(e)));
                            assert(can_error(filter, e));
                        }
                        return Err(e);
                    },
                }
            }
            proof {
                assert forall|k: Seq<u8>| #[trigger] found.deep_view().contains(k) implies (
                canddv.take(ci + 1).contains(k) && tset.contains(k) && can_approve(filter, k)) by {
                    if canddv.take(ci as int).contains(k) {
                        let w = choose|w: int|
                            0 <= w < ci && #[trigger] canddv.take(ci as int)[w] == k;
                        assert(canddv.take(ci + 1)[w] == k);
                    }
                }
            }
            ci += 1;
        }
        proof {
            assert(canddv.take(cn as int) =~= canddv);
        }

        if found.len() > 0 {
            proof {
                let rset = found.deep_view().to_set();
                assert(closest_result_at(filter, graph, sv, tset, rset, d)) by {
                    assert forall|k: Seq<u8>|
                        ring(graph, sv, d).contains(k) && tset.contains(k) && !rset.contains(
                            k,
                        ) implies can_reject(filter, k) by {
                        assert(canddv.to_set().contains(k));
                        let w = choose|w: int| 0 <= w < canddv.len() && #[trigger] canddv[w] == k;
                        assert(found.deep_view().contains(canddv[w]) || can_reject(
                            filter,
                            canddv[w],
                        ));
                    }
                }
                assert(found.deep_view().len() > 0);
                match &graph.bad {
                    Some(b) => {
                        assert(!rset.contains(b@)) by {
                            if rset.contains(b@) {
                                assert(tset.contains(b@));
                                assert(false);
                            }
                        }
                    },
                    None => {},
                }
            }
            return Ok(found);
        }

        // No eligible target on this frontier: expand it.
        let mut new_cand: Vec<Oid> = Vec::new();
        let mut ci2: usize = 0;
        while ci2 < cn
            invariant
                ci2 <= cn,
                cn == cand@.len(),
                canddv == cand.deep_view(),
                graph.wf(),
                cand.deep_view().to_set() <= graph.key_set(),
                new_cand.deep_view().no_duplicates(),
                forall|k: Seq<u8>| #[trigger] new_cand.deep_view().contains(k) <==> ((exists|v: int|
                    0 <= v < ci2 && neighbors(graph, #[trigger] canddv[v]).contains(k))
                    && !checked.deep_view().contains(k) && !cand.deep_view().contains(k)),
            decreases cn - ci2,
        {
            let c = &cand[ci2];
            let ghost cv = canddv[ci2 as int];
            proof {
                assert(cv == cand@[ci2 as int]@);
                assert(cand.deep_view().to_set().contains(cv));
            }
            let commit = match graph.get(c) {
                Some(cm) => cm,
                None => vstd::pervasive::unreached(),
            };
            let ghost before = new_cand.deep_view();
            add_new(&mut new_cand, &commit.parents, &checked, &cand);
            let ghost mid = new_cand.deep_view();
            add_new(&mut new_cand, &commit.children, &checked, &cand);
            proof {
                assert(commit.parents.deep_view().to_set() =~= graph.parents_of(cv));
                assert(commit.children.deep_view().to_set() =~= graph.children_of(cv));
                assert forall|k: Seq<u8>| #[trigger] new_cand.deep_view().contains(k) implies ((
                exists|v: int|
                    0 <= v < ci2 + 1 && neighbors(graph, #[trigger] canddv[v]).contains(k))
                    && !checked.deep_view().contains(k) && !cand.deep_view().contains(k)) by {
                    if !before.contains(k) {
                        assert(neighbors(graph, canddv[ci2 as int]).contains(k));
                    } else {
                        let v = choose|v: int|
                            0 <= v < ci2 && neighbors(graph, #[trigger] canddv[v]).contains(k);
                        assert(neighbors(graph, canddv[v]).contains(k));
                    }
                }
                assert forall|k: Seq<u8>|
                    ((exists|v: int|
                        0 <= v < ci2 + 1 && neighbors(graph, #[trigger] canddv[v]).contains(k))
                        && !checked.deep_view().contains(k) && !cand.deep_view().contains(
                        k,
                    )) implies #[trigger] new_cand.deep_view().contains(k) by {
                    let v = choose|v: int|
                        0 <= v < ci2 + 1 && neighbors(graph, #[trigger] canddv[v]).contains(k);
                    if v < ci2 {
                        assert(before.contains(k));
                        assert(mid.contains(k));
                    } else {
                        assert(graph.parents_of(cv).contains(k) || graph.children_of(cv).contains(
                            k,
                        ));
                    }
                }
            }
            ci2 += 1;
        }
        proof {
            // The new frontier is exactly the next ring.
            assert(new_cand.deep_view().to_set() =~= ring(graph, sv, (d + 1) as nat)) by {
                assert forall|k: Seq<u8>| #[trigger] new_cand.deep_view().contains(k) implies ring(
                    graph,
                    sv,
                    (d + 1) as nat,
                ).contains(k) by {
                    let v = choose|v: int|
                        0 <= v < cn && neighbors(graph, #[trigger] canddv[v]).contains(k);
                    assert(canddv.to_set().contains(canddv[v]));
                    assert(expand(graph, ring(graph, sv, d)).contains(k));
                    assert(!visited(graph, sv, d).contains(k));
                }
                assert forall|k: Seq<u8>| ring(graph, sv, (d + 1) as nat).contains(
                    k,
                ) implies #[trigger] new_cand.deep_view().contains(k) by {
                    assert(expand(graph, ring(graph, sv, d)).contains(k));
                    assert(!visited(graph, sv, d).contains(k));
                    if d == 0 {
                        assert(visited(graph, sv, 0) =~= set![sv]);
                        assert(ring(graph, sv, 0) =~= set![sv]);
                    } else {
                        assert(visited(graph, sv, d) == visited(graph, sv, (d - 1) as nat).union(
                            ring(graph, sv, d),
                        ));
                    }
                    assert(!cand.deep_view().contains(k));
                    assert(!checked.deep_view().contains(k));
                    let kk = choose|kk: Seq<u8>| #[trigger] ring(graph, sv, d).contains(kk)
                        && neighbors(graph, kk).contains(k);
                    assert(canddv.to_set().contains(kk));
                    let v = choose|v: int| 0 <= v < canddv.len() && #[trigger] canddv[v] == kk;
                    assert(neighbors(graph, canddv[v]).contains(k));
                }
            }
            // The next ring holds vertices only.
            assert forall|k: Seq<u8>| #[trigger] new_cand.deep_view().contains(k) implies
            graph.key_set().contains(k) by {
                let v = choose|v: int|
                    0 <= v < cn && neighbors(graph, #[trigger] canddv[v]).contains(k);
                assert(cand.deep_view().to_set().contains(canddv[v]));
                assert(graph.contains_key(canddv[v]));
                assert(graph.parents_of(canddv[v]).contains(k) || graph.children_of(
                    canddv[v],
                ).contains(k));
            }
        }

        let ghost old_checked = checked.deep_view();
        checked.append(&mut cand);
        proof {
            assert(checked.deep_view() =~~= old_checked + canddv);
            assert(checked.deep_view().no_duplicates()) by {
                assert(forall|a: int|
                    0 <= a < old_checked.len() ==> checked.deep_view()[a] == old_checked[a]);
                assert(forall|a: int|
                    old_checked.len() <= a < checked.deep_view().len()
                        ==> checked.deep_view()[a] == canddv[a - old_checked.len()]);
                assert forall|a: int, b: int|
                    0 <= a < b < checked.deep_view().len() implies checked.deep_view()[a]
                    != checked.deep_view()[b] by {
                    if a < old_checked.len() && b >= old_checked.len() {
                        assert(old_checked.contains(old_checked[a]));
                        assert(canddv.contains(canddv[b - old_checked.len()]));
                    }
                }
            }
            assert(checked.deep_view().to_set() =~= old_checked.to_set().union(canddv.to_set()));
            assert(checked.deep_view().to_set() =~= visited(graph, sv, d)) by {
                if d == 0 {
                    assert(canddv.to_set() =~= set![sv]);
                }
            }
        }
        cand = new_cand;
        proof {
            d = d + 1;
            assert(checked.deep_view().to_set() =~= visited(graph, sv, (d - 1) as nat));
            assert(cand.deep_view().to_set() =~= ring(graph, sv, d));
            assert forall|k: Seq<u8>| !(#[trigger] cand.deep_view().contains(k)
                && checked.deep_view().contains(k)) by {
                if cand.deep_view().contains(k) {
                    assert(ring(graph, sv, d).contains(k));
                    assert(!visited(graph, sv, (d - 1) as nat).contains(k));
                }
            }
            // Both lists stay within the vertex set, so their joint
            // length is bounded by the vertex count.
            let w = checked.deep_view() + cand.deep_view();
            assert(w.no_duplicates()) by {
                assert forall|a: int, b: int| 0 <= a < b < w.len() implies w[a] != w[b] by {
                    if a < checked.deep_view().len() && b >= checked.deep_view().len() {
                        assert(checked.deep_view().contains(w[a]));
                        assert(cand.deep_view().contains(w[b]));
                    }
                }
            }
            assert(w.to_set() <= graph.key_set()) by {
                assert forall|k: Seq<u8>| w.to_set().contains(k) implies graph.key_set().contains(
                    k,
                ) by {
                    assert(checked.deep_view().contains(k) || cand.deep_view().contains(k));
                }
            }
            w.unique_seq_to_set();
            broadcast use vstd::seq_lib::seq_to_set_is_finite;

            vstd::set_lib::lemma_len_subset(w.to_set(), graph.key_set());
            graph.key_seq().lemma_cardinality_of_set();
        }
    }
}

} // verus!
