//! Merge bases: the common ancestors of commits that no other common
//! ancestor reaches.

use vstd::prelude::*;
use crate::error::Error;
use crate::graph::{
    id_models, lemma_closed_set_holds_reached, lemma_push_contains, lemma_reaches_itself,
    lemma_reaches_link, lemma_reaches_transitive, lemma_take_contains, links, path_between,
    position, reaches, unresolved, walkable, CommitGraph, NodeModel, ShallowBoundary,
};
use crate::object_id::{
    lemma_lex_asymmetric, lemma_lex_total, lemma_lex_transitive, lex_lt, ObjectId,
};
use crate::walk::{ancestors, ancestors_within, links_of, reaches_more_than};

verus! {

/// All the commits are one and the same.
pub open spec fn all_same(tips: Seq<Seq<u8>>) -> bool {
    forall|k: int| 0 <= k < tips.len() ==> #[trigger] tips[k] == tips[0]
}

/// Every one of `tips` reaches `id`.
pub open spec fn common_ancestor(
    graph: Map<Seq<u8>, NodeModel>,
    boundary: Set<Seq<u8>>,
    tips: Seq<Seq<u8>>,
    id: Seq<u8>,
) -> bool {
    forall|k: int| 0 <= k < tips.len() ==> reaches(graph, boundary, #[trigger] tips[k], id)
}

/// Another common ancestor of `tips` reaches `id`.
pub open spec fn dominated(
    graph: Map<Seq<u8>, NodeModel>,
    boundary: Set<Seq<u8>>,
    tips: Seq<Seq<u8>>,
    id: Seq<u8>,
) -> bool {
    exists|other: Seq<u8>|
        other != id && common_ancestor(graph, boundary, tips, other) && #[trigger] reaches(
            graph,
            boundary,
            other,
            id,
        )
}

/// `id` is a merge base of `tips`: a common ancestor that no other common
/// ancestor reaches. Where all of `tips` are one commit, that commit is
/// their one merge base.
pub open spec fn is_merge_base(
    graph: Map<Seq<u8>, NodeModel>,
    boundary: Set<Seq<u8>>,
    tips: Seq<Seq<u8>>,
    id: Seq<u8>,
) -> bool {
    &&& tips.len() > 0
    &&& if all_same(tips) {
        id == tips[0]
    } else {
        common_ancestor(graph, boundary, tips, id) && !dominated(graph, boundary, tips, id)
    }
}

/// All that each of `tips` reaches can be read.
pub open spec fn all_walkable(
    graph: Map<Seq<u8>, NodeModel>,
    boundary: Set<Seq<u8>>,
    tips: Seq<Seq<u8>>,
) -> bool {
    forall|k: int| 0 <= k < tips.len() ==> walkable(graph, boundary, #[trigger] tips[k])
}

/// `id` is the merge base of `tips` that comes first in byte order.
pub open spec fn is_least_merge_base(
    graph: Map<Seq<u8>, NodeModel>,
    boundary: Set<Seq<u8>>,
    tips: Seq<Seq<u8>>,
    id: Seq<u8>,
) -> bool {
    &&& is_merge_base(graph, boundary, tips, id)
    &&& forall|other: Seq<u8>| #[trigger]
        is_merge_base(graph, boundary, tips, other) ==> other == id || lex_lt(id, other)
}

/// The merge base of `tips` that comes first in byte order, if they have a
/// merge base.
pub open spec fn least_merge_base(
    graph: Map<Seq<u8>, NodeModel>,
    boundary: Set<Seq<u8>>,
    tips: Seq<Seq<u8>>,
) -> Seq<u8> {
    choose|id: Seq<u8>| is_least_merge_base(graph, boundary, tips, id)
}

/// What the merge base of two commits is. A commit is its own merge base.
/// Else both ancestries must be readable, and the result is the first of
/// the merge bases in byte order, or, where there is no first, the failure
/// to find a common ancestor. Among finitely many merge bases there is no
/// first only if there is none at all.
pub open spec fn merge_base_outcome(
    graph: Map<Seq<u8>, NodeModel>,
    boundary: Set<Seq<u8>>,
    one: Seq<u8>,
    two: Seq<u8>,
) -> Result<Seq<u8>, Error> {
    if one == two {
        Ok(one)
    } else if !walkable(graph, boundary, one) || !walkable(graph, boundary, two) {
        Err(Error::ObjectNotFound)
    } else if exists|id: Seq<u8>| is_least_merge_base(graph, boundary, seq![one, two], id) {
        Ok(least_merge_base(graph, boundary, seq![one, two]))
    } else {
        Err(Error::NoCommonAncestor)
    }
}

/// The octopus merge base of `ids[i..]`, folded from the left onto `base`.
pub open spec fn octopus_from(
    graph: Map<Seq<u8>, NodeModel>,
    boundary: Set<Seq<u8>>,
    base: Seq<u8>,
    ids: Seq<Seq<u8>>,
    i: int,
) -> Result<Seq<u8>, Error>
    decreases ids.len() - i,
{
    if i < 0 || i >= ids.len() {
        Ok(base)
    } else {
        match merge_base_outcome(graph, boundary, base, ids[i]) {
            Ok(next) => octopus_from(graph, boundary, next, ids, i + 1),
            Err(e) => Err(e),
        }
    }
}

/// What the octopus merge base of `ids` is: invalid for no commit, the
/// commit itself for one, and else the fold of the pairwise merge base over
/// the commits from the left, which fails where one step fails.
pub open spec fn octopus_outcome(
    graph: Map<Seq<u8>, NodeModel>,
    boundary: Set<Seq<u8>>,
    ids: Seq<Seq<u8>>,
) -> Result<Seq<u8>, Error> {
    if ids.len() == 0 {
        Err(Error::InvalidInput)
    } else {
        octopus_from(graph, boundary, ids[0], ids, 1)
    }
}

/// The ids come in strictly ascending byte order.
pub open spec fn ascending(ids: Seq<Seq<u8>>) -> bool {
    forall|i: int, j: int| 0 <= i < j < ids.len() ==> lex_lt(ids[i], ids[j])
}

/// At most one commit is the least merge base.
pub proof fn lemma_least_merge_base_unique(
    graph: Map<Seq<u8>, NodeModel>,
    boundary: Set<Seq<u8>>,
    tips: Seq<Seq<u8>>,
    id: Seq<u8>,
)
    requires
        is_least_merge_base(graph, boundary, tips, id),
    ensures
        least_merge_base(graph, boundary, tips) == id,
{
    let chosen = least_merge_base(graph, boundary, tips);
    assert(is_least_merge_base(graph, boundary, tips, chosen));
    assert(is_merge_base(graph, boundary, tips, chosen));
    assert(is_merge_base(graph, boundary, tips, id));
    lemma_lex_asymmetric(id, chosen);
}

/// Where the first occurrence of `id` on a path is.
proof fn lemma_first_occurrence(path: Seq<Seq<u8>>, id: Seq<u8>, upto: int) -> (k: int)
    requires
        0 <= upto < path.len(),
        path[upto] == id,
    ensures
        0 <= k <= upto,
        path[k] == id,
        forall|i: int| 0 <= i < k ==> path[i] != id,
    decreases upto,
{
    if exists|i: int| 0 <= i < upto && path[i] == id {
        let i = choose|i: int| 0 <= i < upto && path[i] == id;
        lemma_first_occurrence(path, id, i)
    } else {
        upto
    }
}

/// A common ancestor is reached by another one if and only if it is a link
/// of another one.
pub proof fn lemma_dominated_by_link(
    graph: Map<Seq<u8>, NodeModel>,
    boundary: Set<Seq<u8>>,
    tips: Seq<Seq<u8>>,
    id: Seq<u8>,
)
    ensures
        dominated(graph, boundary, tips, id) <==> exists|other: Seq<u8>|
            other != id && common_ancestor(graph, boundary, tips, other) && #[trigger] links(
                graph,
                boundary,
                other,
            ).contains(id),
{
    if dominated(graph, boundary, tips, id) {
        let y = choose|other: Seq<u8>|
            other != id && common_ancestor(graph, boundary, tips, other) && #[trigger] reaches(
                graph,
                boundary,
                other,
                id,
            );
        let path = choose|path: Seq<Seq<u8>>| path_between(graph, boundary, path, y, id);
        let k = lemma_first_occurrence(path, id, path.len() - 1);
        let q = path[k - 1];
        let prefix = path.take(k);
        assert(path_between(graph, boundary, prefix, y, q)) by {
            assert forall|i: int| 0 <= i < prefix.len() - 1 implies links(
                graph,
                boundary,
                #[trigger] prefix[i],
            ).contains(prefix[i + 1]) by {
                assert(links(graph, boundary, path[i]).contains(path[i + 1]));
            }
        }
        assert(reaches(graph, boundary, y, q));
        assert forall|t: int| 0 <= t < tips.len() implies reaches(
            graph,
            boundary,
            #[trigger] tips[t],
            q,
        ) by {
            lemma_reaches_transitive(graph, boundary, tips[t], y, q);
        }
        assert(links(graph, boundary, path[k - 1]).contains(path[k]));
        assert(q != id && common_ancestor(graph, boundary, tips, q) && links(
            graph,
            boundary,
            q,
        ).contains(id));
    }
    if exists|other: Seq<u8>|
        other != id && common_ancestor(graph, boundary, tips, other) && #[trigger] links(
            graph,
            boundary,
            other,
        ).contains(id) {
        let q = choose|other: Seq<u8>|
            other != id && common_ancestor(graph, boundary, tips, other) && #[trigger] links(
                graph,
                boundary,
                other,
            ).contains(id);
        lemma_reaches_itself(graph, boundary, q);
        lemma_reaches_link(graph, boundary, q, q, id);
        assert(reaches(graph, boundary, q, id));
    }
}

/// Put `id` into a list in ascending byte order, unless the list holds it.
pub fn insert_sorted(sorted: &mut Vec<ObjectId>, id: ObjectId)
    requires
        ascending(id_models(old(sorted)@)),
    ensures
        ascending(id_models(final(sorted)@)),
        forall|x: Seq<u8>|
            id_models(final(sorted)@).contains(x) <==> id_models(old(sorted)@).contains(x) || x
                == id@,
{
    let ghost before = id_models(sorted@);
    let mut i: usize = 0;
    while i < sorted.len() && sorted[i].precedes(&id)
        invariant
            i <= sorted@.len(),
            before == id_models(sorted@),
            forall|k: int| 0 <= k < i ==> lex_lt(#[trigger] before[k], id@),
        decreases sorted@.len() - i,
    {
        assert(before[i as int] == sorted@[i as int]@);
        i += 1;
    }
    if i < sorted.len() && sorted[i] == id {
        proof {
            assert(before[i as int] == id@);
            assert(before.contains(id@));
        }
        return ;
    }
    proof {
        let after = before.insert(i as int, id@);
        assert(id_models(sorted@.insert(i as int, id)) =~= after);
        if i < before.len() {
            assert(before[i as int] == sorted@[i as int]@);
            lemma_lex_total(before[i as int], id@);
        }
        assert forall|a: int, b: int| 0 <= a < b < after.len() implies lex_lt(
            after[a],
            after[b],
        ) by {
            if b < i {
                assert(after[a] == before[a] && after[b] == before[b]);
            } else if b == i {
                assert(after[a] == before[a]);
            } else if a < i {
                assert(after[a] == before[a] && after[b] == before[b - 1]);
            } else if a == i {
                assert(after[b] == before[b - 1]);
                if b - 1 > i {
                    lemma_lex_transitive(id@, before[i as int], before[b - 1]);
                }
            } else {
                assert(after[a] == before[a - 1] && after[b] == before[b - 1]);
            }
        }
        assert forall|x: Seq<u8>| after.contains(x) <==> before.contains(x) || x == id@ by {
            if before.contains(x) {
                let k = choose|k: int| 0 <= k < before.len() && before[k] == x;
                if k < i {
                    assert(after[k] == x);
                } else {
                    assert(after[k + 1] == x);
                }
            }
            if x == id@ {
                assert(after[i as int] == x);
            }
            if after.contains(x) {
                let k = choose|k: int| 0 <= k < after.len() && after[k] == x;
                if k < i {
                    assert(before[k] == x);
                } else if k > i {
                    assert(before[k - 1] == x);
                }
            }
        }
    }
    sorted.insert(i, id);
}

/// Those of `ids` that are also among `among`, in their order.
pub fn retain_members(ids: &Vec<ObjectId>, among: &Vec<ObjectId>) -> (kept: Vec<ObjectId>)
    ensures
        forall|x: Seq<u8>|
            id_models(kept@).contains(x) <==> id_models(ids@).contains(x) && id_models(
                among@,
            ).contains(x),
{
    let ghost all = id_models(ids@);
    let mut kept: Vec<ObjectId> = Vec::new();
    let mut i: usize = 0;
    while i < ids.len()
        invariant
            i <= ids@.len(),
            all == id_models(ids@),
            forall|x: Seq<u8>|
                id_models(kept@).contains(x) <==> all.take(i as int).contains(x) && id_models(
                    among@,
                ).contains(x),
        decreases ids@.len() - i,
    {
        let ghost held = id_models(kept@);
        let ghost next = ids@[i as int]@;
        assert(all[i as int] == next);
        if position(among, &ids[i]).is_some() {
            kept.push(ids[i].clone());
            proof {
                assert(id_models(kept@) =~= held.push(next));
                assert forall|x: Seq<u8>|
                    id_models(kept@).contains(x) <==> all.take(i + 1).contains(x) && id_models(
                        among@,
                    ).contains(x) by {
                    lemma_push_contains(held, next, x);
                    lemma_take_contains(all, i as int, x);
                }
            }
        } else {
            proof {
                assert forall|x: Seq<u8>|
                    id_models(kept@).contains(x) <==> all.take(i + 1).contains(x) && id_models(
                        among@,
                    ).contains(x) by {
                    lemma_take_contains(all, i as int, x);
                }
            }
        }
        i += 1;
    }
    assert(all.take(ids@.len() as int) =~= all);
    kept
}

/// One of `among` other than `id` has `id` among its links.
pub open spec fn linked_from_other(
    graph: Map<Seq<u8>, NodeModel>,
    boundary: Set<Seq<u8>>,
    among: Seq<Seq<u8>>,
    id: Seq<u8>,
) -> bool {
    exists|i: int|
        0 <= i < among.len() && among[i] != id && #[trigger] links(
            graph,
            boundary,
            among[i],
        ).contains(id)
}

/// Decide [`linked_from_other`].
pub fn is_linked_from_other(
    graph: &CommitGraph,
    boundary: &ShallowBoundary,
    among: &Vec<ObjectId>,
    id: &ObjectId,
) -> (linked: bool)
    ensures
        linked == linked_from_other(graph@, boundary@, id_models(among@), id@),
{
    let ghost all = id_models(among@);
    let mut i: usize = 0;
    while i < among.len()
        invariant
            i <= among@.len(),
            all == id_models(among@),
            forall|k: int|
                0 <= k < i ==> !(all[k] != id@ && #[trigger] links(
                    graph@,
                    boundary@,
                    all[k],
                ).contains(id@)),
        decreases among@.len() - i,
    {
        assert(all[i as int] == among@[i as int]@);
        if among[i] != *id {
            let parents = links_of(graph, boundary, &among[i]);
            if position(&parents, id).is_some() {
                assert(links(graph@, boundary@, all[i as int]).contains(id@));
                return true;
            }
        }
        i += 1;
    }
    false
}

/// `one` and the first `k` of `others` all reach `id`.
spec fn common_upto(
    graph: Map<Seq<u8>, NodeModel>,
    boundary: Set<Seq<u8>>,
    one: Seq<u8>,
    others: Seq<Seq<u8>>,
    k: int,
    id: Seq<u8>,
) -> bool {
    &&& reaches(graph, boundary, one, id)
    &&& forall|t: int| 0 <= t < k ==> reaches(graph, boundary, #[trigger] others[t], id)
}

/// The commits whose merge bases are asked for: `one`, then `others`.
pub open spec fn tips_of(one: Seq<u8>, others: Seq<Seq<u8>>) -> Seq<Seq<u8>> {
    seq![one] + others
}

proof fn lemma_common_upto_all(
    graph: Map<Seq<u8>, NodeModel>,
    boundary: Set<Seq<u8>>,
    one: Seq<u8>,
    others: Seq<Seq<u8>>,
    id: Seq<u8>,
)
    ensures
        common_upto(graph, boundary, one, others, others.len() as int, id) <==> common_ancestor(
            graph,
            boundary,
            tips_of(one, others),
            id,
        ),
{
    let tips = tips_of(one, others);
    assert(tips[0] == one);
    if common_upto(graph, boundary, one, others, others.len() as int, id) {
        assert forall|k: int| 0 <= k < tips.len() implies reaches(
            graph,
            boundary,
            #[trigger] tips[k],
            id,
        ) by {
            if k > 0 {
                assert(tips[k] == others[k - 1]);
            }
        }
    }
    if common_ancestor(graph, boundary, tips, id) {
        assert forall|t: int| 0 <= t < others.len() implies reaches(
            graph,
            boundary,
            #[trigger] others[t],
            id,
        ) by {
            assert(tips[t + 1] == others[t]);
        }
    }
}

/// Whether all of `others` are `one`.
fn all_equal(one: &ObjectId, others: &Vec<ObjectId>) -> (same: bool)
    ensures
        same == all_same(tips_of(one@, id_models(others@))),
{
    let ghost tips = tips_of(one@, id_models(others@));
    assert(tips[0] == one@);
    let mut i: usize = 0;
    while i < others.len()
        invariant
            i <= others@.len(),
            tips == tips_of(one@, id_models(others@)),
            tips[0] == one@,
            forall|k: int| 0 <= k < i + 1 ==> #[trigger] tips[k] == tips[0],
        decreases others@.len() - i,
    {
        assert(tips[i + 1] == others@[i as int]@);
        if others[i] != *one {
            return false;
        }
        i += 1;
    }
    true
}

/// One of the commits reaches more than `n` commits.
pub open spec fn some_reach_more_than(
    graph: Map<Seq<u8>, NodeModel>,
    boundary: Set<Seq<u8>>,
    tips: Seq<Seq<u8>>,
    n: int,
) -> bool {
    exists|k: int| 0 <= k < tips.len() && reaches_more_than(graph, boundary, #[trigger] tips[k], n)
}

/// The ancestry of `start`, with or without a limit on its size.
fn reach(graph: &CommitGraph, boundary: &ShallowBoundary, start: &ObjectId, limit: Option<usize>) -> (walked:
    Result<Vec<ObjectId>, Error>)
    ensures
        walked matches Ok(ids) ==> {
            &&& walkable(graph@, boundary@, start@)
            &&& forall|id: Seq<u8>|
                id_models(ids@).contains(id) <==> reaches(graph@, boundary@, start@, id)
        },
        walked matches Err(e) ==> {
            ||| e == Error::ObjectNotFound && !walkable(graph@, boundary@, start@)
            ||| e == Error::TimedOut && limit is Some && reaches_more_than(
                graph@,
                boundary@,
                start@,
                limit->0 as int,
            )
        },
{
    match limit {
        Some(steps) => ancestors_within(graph, boundary, start, steps),
        None => ancestors(graph, boundary, start),
    }
}

/// The merge bases, with or without a limit on the size of each ancestry.
fn search_merge_bases(
    graph: &CommitGraph,
    boundary: &ShallowBoundary,
    one: &ObjectId,
    others: &Vec<ObjectId>,
    limit: Option<usize>,
) -> (found: Result<Vec<ObjectId>, Error>)
    ensures
        found matches Ok(bases) ==> {
            &&& all_same(tips_of(one@, id_models(others@))) || all_walkable(
                graph@,
                boundary@,
                tips_of(one@, id_models(others@)),
            )
            &&& ascending(id_models(bases@))
            &&& forall|id: Seq<u8>|
                id_models(bases@).contains(id) <==> is_merge_base(
                    graph@,
                    boundary@,
                    tips_of(one@, id_models(others@)),
                    id,
                )
        },
        found matches Err(e) ==> {
            &&& !all_same(tips_of(one@, id_models(others@)))
            &&& {
                ||| e == Error::ObjectNotFound && !all_walkable(
                    graph@,
                    boundary@,
                    tips_of(one@, id_models(others@)),
                )
                ||| e == Error::TimedOut && limit is Some && some_reach_more_than(
                    graph@,
                    boundary@,
                    tips_of(one@, id_models(others@)),
                    limit->0 as int,
                )
            }
        },
{
    let ghost g = graph@;
    let ghost b = boundary@;
    let ghost rest = id_models(others@);
    let ghost tips = tips_of(one@, rest);
    assert(tips[0] == one@);
    if all_equal(one, others) {
        let mut bases: Vec<ObjectId> = Vec::new();
        bases.push(one.clone());
        proof {
            assert(id_models(bases@) =~= seq![one@]);
            assert forall|id: Seq<u8>| id_models(bases@).contains(id) <==> is_merge_base(
                g,
                b,
                tips,
                id,
            ) by {
                if id == one@ {
                    assert(id_models(bases@)[0] == id);
                }
            }
        }
        return Ok(bases);
    }
    let mut common = match reach(graph, boundary, one, limit) {
        Ok(ids) => ids,
        Err(e) => {
            return Err(e);
        },
    };
    let mut k: usize = 0;
    while k < others.len()
        invariant
            k <= others@.len(),
            g == graph@,
            b == boundary@,
            rest == id_models(others@),
            tips == tips_of(one@, rest),
            !all_same(tips),
            walkable(g, b, one@),
            forall|t: int| 0 <= t < k ==> walkable(g, b, #[trigger] rest[t]),
            forall|id: Seq<u8>|
                id_models(common@).contains(id) <==> common_upto(g, b, one@, rest, k as int, id),
        decreases others@.len() - k,
    {
        assert(rest[k as int] == others@[k as int]@);
        let reached = match reach(graph, boundary, &others[k], limit) {
            Ok(ids) => ids,
            Err(e) => {
                assert(tips[k + 1] == rest[k as int]);
                assert(e == Error::ObjectNotFound ==> !walkable(g, b, tips[k + 1]));
                assert(e == Error::TimedOut ==> reaches_more_than(
                    g,
                    b,
                    tips[k + 1],
                    limit->0 as int,
                ));
                return Err(e);
            },
        };
        let ghost held = id_models(common@);
        common = retain_members(&common, &reached);
        proof {
            assert forall|id: Seq<u8>| id_models(common@).contains(id) <==> common_upto(
                g,
                b,
                one@,
                rest,
                k + 1,
                id,
            ) by {
                assert(held.contains(id) <==> common_upto(g, b, one@, rest, k as int, id));
            }
        }
        k += 1;
    }
    proof {
        assert forall|t: int| 0 <= t < tips.len() implies walkable(g, b, #[trigger] tips[t]) by {
            if t > 0 {
                assert(tips[t] == rest[t - 1]);
            }
        }
        assert forall|id: Seq<u8>| id_models(common@).contains(id) <==> common_ancestor(
            g,
            b,
            tips,
            id,
        ) by {
            lemma_common_upto_all(g, b, one@, rest, id);
        }
    }
    let ghost candidates = id_models(common@);
    let mut bases: Vec<ObjectId> = Vec::new();
    assert(id_models(bases@) =~= Seq::<Seq<u8>>::empty());
    let mut i: usize = 0;
    while i < common.len()
        invariant
            i <= common@.len(),
            g == graph@,
            b == boundary@,
            candidates == id_models(common@),
            ascending(id_models(bases@)),
            forall|id: Seq<u8>|
                id_models(bases@).contains(id) <==> candidates.take(i as int).contains(id)
                    && !linked_from_other(g, b, candidates, id),
        decreases common@.len() - i,
    {
        let ghost held = id_models(bases@);
        let ghost next = common@[i as int]@;
        assert(candidates[i as int] == next);
        if !is_linked_from_other(graph, boundary, &common, &common[i]) {
            insert_sorted(&mut bases, common[i].clone());
        }
        proof {
            assert forall|id: Seq<u8>|
                id_models(bases@).contains(id) <==> candidates.take(i + 1).contains(id)
                    && !linked_from_other(g, b, candidates, id) by {
                lemma_take_contains(candidates, i as int, id);
            }
        }
        i += 1;
    }
    proof {
        assert(candidates.take(common@.len() as int) =~= candidates);
        assert forall|id: Seq<u8>| id_models(bases@).contains(id) <==> is_merge_base(
            g,
            b,
            tips,
            id,
        ) by {
            lemma_dominated_by_link(g, b, tips, id);
            if linked_from_other(g, b, candidates, id) {
                let q = choose|q: int|
                    0 <= q < candidates.len() && candidates[q] != id && #[trigger] links(
                        g,
                        b,
                        candidates[q],
                    ).contains(id);
                assert(candidates.contains(candidates[q]));
                assert(common_ancestor(g, b, tips, candidates[q]));
            }
            if dominated(g, b, tips, id) {
                let other = choose|other: Seq<u8>|
                    other != id && common_ancestor(g, b, tips, other) && #[trigger] links(
                        g,
                        b,
                        other,
                    ).contains(id);
                assert(candidates.contains(other));
                let q = choose|q: int| 0 <= q < candidates.len() && candidates[q] == other;
                assert(links(g, b, candidates[q]).contains(id));
            }
        }
    }
    Ok(bases)
}

/// All merge bases of `one` and `others`: the commits that all of them
/// reach and that no other such commit reaches, in ascending byte order.
/// Commits that share no history have none.
///
/// Where `others` is empty or holds `one` alone, `one` is the one merge
/// base and nothing is read. Else the call fails with
/// [`Error::ObjectNotFound`] if and only if one of the commits reaches a
/// commit that is neither in the graph nor part of the boundary.
pub fn merge_bases(
    graph: &CommitGraph,
    boundary: &ShallowBoundary,
    one: &ObjectId,
    others: &Vec<ObjectId>,
) -> (found: Result<Vec<ObjectId>, Error>)
    ensures
        found is Ok <==> all_same(tips_of(one@, id_models(others@))) || all_walkable(
            graph@,
            boundary@,
            tips_of(one@, id_models(others@)),
        ),
        found matches Err(e) ==> e == Error::ObjectNotFound,
        found matches Ok(bases) ==> {
            &&& ascending(id_models(bases@))
            &&& forall|id: Seq<u8>|
                id_models(bases@).contains(id) <==> is_merge_base(
                    graph@,
                    boundary@,
                    tips_of(one@, id_models(others@)),
                    id,
                )
        },
{
    search_merge_bases(graph, boundary, one, others, None)
}

/// As [`merge_bases`], but giving up with [`Error::TimedOut`] once the walk
/// from one of the commits would have to visit more than `steps` commits.
/// A result that comes is the same as without the limit, and it comes
/// whenever none of the commits reaches more than `steps` commits.
pub fn merge_bases_within(
    graph: &CommitGraph,
    boundary: &ShallowBoundary,
    one: &ObjectId,
    others: &Vec<ObjectId>,
    steps: usize,
) -> (found: Result<Vec<ObjectId>, Error>)
    ensures
        found matches Ok(bases) ==> {
            &&& all_same(tips_of(one@, id_models(others@))) || all_walkable(
                graph@,
                boundary@,
                tips_of(one@, id_models(others@)),
            )
            &&& ascending(id_models(bases@))
            &&& forall|id: Seq<u8>|
                id_models(bases@).contains(id) <==> is_merge_base(
                    graph@,
                    boundary@,
                    tips_of(one@, id_models(others@)),
                    id,
                )
        },
        found matches Err(e) ==> {
            &&& !all_same(tips_of(one@, id_models(others@)))
            &&& {
                ||| e == Error::ObjectNotFound && !all_walkable(
                    graph@,
                    boundary@,
                    tips_of(one@, id_models(others@)),
                )
                ||| e == Error::TimedOut && some_reach_more_than(
                    graph@,
                    boundary@,
                    tips_of(one@, id_models(others@)),
                    steps as int,
                )
            }
        },
{
    search_merge_bases(graph, boundary, one, others, Some(steps))
}

/// Of merge bases in ascending order the first is the least.
proof fn lemma_first_is_least(
    graph: Map<Seq<u8>, NodeModel>,
    boundary: Set<Seq<u8>>,
    tips: Seq<Seq<u8>>,
    bases: Seq<Seq<u8>>,
)
    requires
        ascending(bases),
        bases.len() > 0,
        forall|id: Seq<u8>| bases.contains(id) <==> is_merge_base(graph, boundary, tips, id),
    ensures
        is_least_merge_base(graph, boundary, tips, bases[0]),
        least_merge_base(graph, boundary, tips) == bases[0],
{
    let first = bases[0];
    assert(bases.contains(first));
    assert forall|other: Seq<u8>| #[trigger]
        is_merge_base(graph, boundary, tips, other) implies other == first || lex_lt(
        first,
        other,
    ) by {
        assert(bases.contains(other));
        let k = choose|k: int| 0 <= k < bases.len() && bases[k] == other;
        if k > 0 {
            assert(lex_lt(bases[0], bases[k]));
        }
    }
    lemma_least_merge_base_unique(graph, boundary, tips, first);
}

/// Where there is no merge base, none is the least.
proof fn lemma_none_is_least(
    graph: Map<Seq<u8>, NodeModel>,
    boundary: Set<Seq<u8>>,
    tips: Seq<Seq<u8>>,
    bases: Seq<Seq<u8>>,
)
    requires
        bases.len() == 0,
        forall|id: Seq<u8>| bases.contains(id) <==> is_merge_base(graph, boundary, tips, id),
    ensures
        forall|id: Seq<u8>| !is_merge_base(graph, boundary, tips, id),
        !exists|id: Seq<u8>| is_least_merge_base(graph, boundary, tips, id),
{
    assert forall|id: Seq<u8>| !is_merge_base(graph, boundary, tips, id) by {
        assert(!bases.contains(id));
    }
    assert forall|id: Seq<u8>| !is_least_merge_base(graph, boundary, tips, id) by {
        assert(!is_merge_base(graph, boundary, tips, id));
    }
}

/// Two different commits, as the commits whose merge bases are asked for.
proof fn lemma_pair(
    graph: Map<Seq<u8>, NodeModel>,
    boundary: Set<Seq<u8>>,
    one: Seq<u8>,
    two: Seq<u8>,
)
    ensures
        tips_of(one, seq![two]) == seq![one, two],
        all_same(seq![one, two]) <==> one == two,
        all_walkable(graph, boundary, seq![one, two]) <==> walkable(graph, boundary, one)
            && walkable(graph, boundary, two),
{
    let tips = seq![one, two];
    assert(tips_of(one, seq![two]) =~= tips);
    assert(tips[0] == one && tips[1] == two);
    if all_same(tips) {
        assert(tips[1] == tips[0]);
    }
    if all_walkable(graph, boundary, tips) {
        assert(walkable(graph, boundary, tips[0]));
        assert(walkable(graph, boundary, tips[1]));
    }
}

/// The merge base of two commits, with or without a limit on the size of
/// each ancestry.
fn search_merge_base(
    graph: &CommitGraph,
    boundary: &ShallowBoundary,
    one: &ObjectId,
    two: &ObjectId,
    limit: Option<usize>,
) -> (found: Result<ObjectId, Error>)
    ensures
        found matches Ok(id) ==> {
            &&& merge_base_outcome(graph@, boundary@, one@, two@) == Ok::<Seq<u8>, Error>(id@)
            &&& is_merge_base(graph@, boundary@, seq![one@, two@], id@)
        },
        found matches Err(e) ==> {
            ||| {
                &&& e == Error::TimedOut
                &&& limit is Some
                &&& one@ != two@
                &&& reaches_more_than(graph@, boundary@, one@, limit->0 as int)
                    || reaches_more_than(graph@, boundary@, two@, limit->0 as int)
            }
            ||| {
                &&& e != Error::TimedOut
                &&& merge_base_outcome(graph@, boundary@, one@, two@) == Err::<Seq<u8>, Error>(e)
                &&& e == Error::NoCommonAncestor ==> forall|id: Seq<u8>|
                    !is_merge_base(graph@, boundary@, seq![one@, two@], id)
            }
        },
{
    proof {
        lemma_pair(graph@, boundary@, one@, two@);
    }
    if *one == *two {
        return Ok(one.clone());
    }
    let mut others: Vec<ObjectId> = Vec::new();
    others.push(two.clone());
    assert(id_models(others@) =~= seq![two@]);
    let bases = match search_merge_bases(graph, boundary, one, &others, limit) {
        Ok(bases) => bases,
        Err(e) => {
            proof {
                let tips = seq![one@, two@];
                if e == Error::TimedOut {
                    let k = choose|k: int|
                        0 <= k < tips.len() && reaches_more_than(
                            graph@,
                            boundary@,
                            #[trigger] tips[k],
                            limit->0 as int,
                        );
                    assert(tips[k] == one@ || tips[k] == two@);
                }
            }
            return Err(e);
        },
    };
    if bases.len() == 0 {
        proof {
            lemma_none_is_least(graph@, boundary@, seq![one@, two@], id_models(bases@));
        }
        return Err(Error::NoCommonAncestor);
    }
    proof {
        lemma_first_is_least(graph@, boundary@, seq![one@, two@], id_models(bases@));
        assert(id_models(bases@)[0] == bases@[0]@);
    }
    Ok(bases[0].clone())
}

/// The merge base of two commits: of their merge bases the one that comes
/// first in byte order. A commit is its own merge base.
///
/// Fails with [`Error::NoCommonAncestor`] if the commits share no history,
/// and with [`Error::ObjectNotFound`] if one of two different commits
/// reaches a commit that is neither in the graph nor part of the boundary.
pub fn merge_base(
    graph: &CommitGraph,
    boundary: &ShallowBoundary,
    one: &ObjectId,
    two: &ObjectId,
) -> (found: Result<ObjectId, Error>)
    ensures
        match merge_base_outcome(graph@, boundary@, one@, two@) {
            Ok(id) => found is Ok && found->Ok_0@ == id,
            Err(e) => found is Err && found->Err_0 == e,
        },
        found matches Ok(id) ==> is_merge_base(graph@, boundary@, seq![one@, two@], id@),
        found matches Err(Error::NoCommonAncestor) ==> forall|id: Seq<u8>|
            !is_merge_base(graph@, boundary@, seq![one@, two@], id),
{
    search_merge_base(graph, boundary, one, two, None)
}

/// As [`merge_base`], but giving up with [`Error::TimedOut`] once the walk
/// from one of the commits would have to visit more than `steps` commits.
/// Any other outcome is that of [`merge_base`], and it comes whenever
/// neither commit reaches more than `steps` commits.
pub fn merge_base_within(
    graph: &CommitGraph,
    boundary: &ShallowBoundary,
    one: &ObjectId,
    two: &ObjectId,
    steps: usize,
) -> (found: Result<ObjectId, Error>)
    ensures
        found matches Ok(id) ==> {
            &&& merge_base_outcome(graph@, boundary@, one@, two@) == Ok::<Seq<u8>, Error>(id@)
            &&& is_merge_base(graph@, boundary@, seq![one@, two@], id@)
        },
        found matches Err(e) ==> {
            ||| {
                &&& e == Error::TimedOut
                &&& one@ != two@
                &&& reaches_more_than(graph@, boundary@, one@, steps as int) || reaches_more_than(
                    graph@,
                    boundary@,
                    two@,
                    steps as int,
                )
            }
            ||| {
                &&& e != Error::TimedOut
                &&& merge_base_outcome(graph@, boundary@, one@, two@) == Err::<Seq<u8>, Error>(e)
            }
        },
{
    search_merge_base(graph, boundary, one, two, Some(steps))
}

/// The octopus merge base, with or without a limit on the size of each
/// ancestry.
fn search_octopus(
    graph: &CommitGraph,
    boundary: &ShallowBoundary,
    ids: &Vec<ObjectId>,
    limit: Option<usize>,
) -> (found: Result<ObjectId, Error>)
    ensures
        found matches Ok(id) ==> octopus_outcome(graph@, boundary@, id_models(ids@)) == Ok::<
            Seq<u8>,
            Error,
        >(id@),
        found matches Err(e) ==> {
            ||| {
                &&& e == Error::TimedOut
                &&& limit is Some
                &&& exists|id: Seq<u8>| #[trigger]
                    reaches_more_than(graph@, boundary@, id, limit->0 as int)
            }
            ||| {
                &&& e != Error::TimedOut
                &&& octopus_outcome(graph@, boundary@, id_models(ids@)) == Err::<Seq<u8>, Error>(e)
            }
        },
{
    if ids.len() == 0 {
        return Err(Error::InvalidInput);
    }
    let ghost all = id_models(ids@);
    let mut base = ids[0].clone();
    assert(all[0] == base@);
    let mut i: usize = 1;
    while i < ids.len()
        invariant
            1 <= i <= ids@.len(),
            all == id_models(ids@),
            octopus_outcome(graph@, boundary@, all) == octopus_from(
                graph@,
                boundary@,
                base@,
                all,
                i as int,
            ),
        decreases ids@.len() - i,
    {
        assert(all[i as int] == ids@[i as int]@);
        base = match search_merge_base(graph, boundary, &base, &ids[i], limit) {
            Ok(next) => next,
            Err(e) => {
                proof {
                    if e == Error::TimedOut {
                        assert(reaches_more_than(graph@, boundary@, base@, limit->0 as int)
                            || reaches_more_than(graph@, boundary@, all[i as int], limit->0 as int));
                    }
                }
                return Err(e);
            },
        };
        i += 1;
    }
    Ok(base)
}

/// The octopus merge base of `ids`: the pairwise merge base, folded over
/// the commits from the left.
///
/// No commit is [`Error::InvalidInput`]. One commit is its own result. A
/// step that finds no common ancestor fails the whole with
/// [`Error::NoCommonAncestor`].
pub fn merge_base_octopus(graph: &CommitGraph, boundary: &ShallowBoundary, ids: &Vec<ObjectId>) -> (found:
    Result<ObjectId, Error>)
    ensures
        match octopus_outcome(graph@, boundary@, id_models(ids@)) {
            Ok(id) => found is Ok && found->Ok_0@ == id,
            Err(e) => found is Err && found->Err_0 == e,
        },
{
    search_octopus(graph, boundary, ids, None)
}

/// As [`merge_base_octopus`], but giving up with [`Error::TimedOut`] once
/// a walk would have to visit more than `steps` commits. Any other outcome
/// is that of [`merge_base_octopus`], and it comes whenever no commit
/// reaches more than `steps` commits.
pub fn merge_base_octopus_within(
    graph: &CommitGraph,
    boundary: &ShallowBoundary,
    ids: &Vec<ObjectId>,
    steps: usize,
) -> (found: Result<ObjectId, Error>)
    ensures
        found matches Ok(id) ==> octopus_outcome(graph@, boundary@, id_models(ids@)) == Ok::<
            Seq<u8>,
            Error,
        >(id@),
        found matches Err(e) ==> {
            ||| {
                &&& e == Error::TimedOut
                &&& exists|id: Seq<u8>| #[trigger]
                    reaches_more_than(graph@, boundary@, id, steps as int)
            }
            ||| {
                &&& e != Error::TimedOut
                &&& octopus_outcome(graph@, boundary@, id_models(ids@)) == Err::<Seq<u8>, Error>(e)
            }
        },
{
    search_octopus(graph, boundary, ids, Some(steps))
}

/// A commit is its own merge base.
pub proof fn lemma_merge_base_of_itself(
    graph: Map<Seq<u8>, NodeModel>,
    boundary: Set<Seq<u8>>,
    id: Seq<u8>,
)
    ensures
        merge_base_outcome(graph, boundary, id, id) == Ok::<Seq<u8>, Error>(id),
{
}

/// The merge base of two commits does not depend on their order.
pub proof fn lemma_merge_base_commutes(
    graph: Map<Seq<u8>, NodeModel>,
    boundary: Set<Seq<u8>>,
    one: Seq<u8>,
    two: Seq<u8>,
)
    ensures
        merge_base_outcome(graph, boundary, one, two) == merge_base_outcome(
            graph,
            boundary,
            two,
            one,
        ),
{
    let forth = seq![one, two];
    let back = seq![two, one];
    assert forall|id: Seq<u8>| is_merge_base(graph, boundary, forth, id) <==> is_merge_base(
        graph,
        boundary,
        back,
        id,
    ) by {
        if is_merge_base(graph, boundary, forth, id) {
            lemma_same_merge_bases(graph, boundary, one, two, id);
        }
        if is_merge_base(graph, boundary, back, id) {
            lemma_same_merge_bases(graph, boundary, two, one, id);
        }
    }
    assert forall|id: Seq<u8>| is_least_merge_base(graph, boundary, forth, id) <==> is_least_merge_base(
        graph,
        boundary,
        back,
        id,
    ) by {
        if is_least_merge_base(graph, boundary, forth, id) {
            assert forall|other: Seq<u8>| #[trigger]
                is_merge_base(graph, boundary, back, other) implies other == id || lex_lt(
                id,
                other,
            ) by {
                assert(is_merge_base(graph, boundary, forth, other));
            }
        }
        if is_least_merge_base(graph, boundary, back, id) {
            assert forall|other: Seq<u8>| #[trigger]
                is_merge_base(graph, boundary, forth, other) implies other == id || lex_lt(
                id,
                other,
            ) by {
                assert(is_merge_base(graph, boundary, back, other));
            }
        }
    }
    if exists|id: Seq<u8>| is_least_merge_base(graph, boundary, forth, id) {
        let least = choose|id: Seq<u8>| is_least_merge_base(graph, boundary, forth, id);
        assert(is_least_merge_base(graph, boundary, back, least));
        lemma_least_merge_base_unique(graph, boundary, forth, least);
        lemma_least_merge_base_unique(graph, boundary, back, least);
    } else {
        assert forall|id: Seq<u8>| !is_least_merge_base(graph, boundary, back, id) by {
            assert(!is_least_merge_base(graph, boundary, forth, id));
        }
    }
}

/// What is a merge base of two commits in one order is one in the other.
proof fn lemma_same_merge_bases(
    graph: Map<Seq<u8>, NodeModel>,
    boundary: Set<Seq<u8>>,
    one: Seq<u8>,
    two: Seq<u8>,
    id: Seq<u8>,
)
    requires
        is_merge_base(graph, boundary, seq![one, two], id),
    ensures
        is_merge_base(graph, boundary, seq![two, one], id),
{
    let forth = seq![one, two];
    let back = seq![two, one];
    assert(forth[0] == one && forth[1] == two);
    assert(back[0] == two && back[1] == one);
    assert forall|x: Seq<u8>| common_ancestor(graph, boundary, back, x) implies common_ancestor(
        graph,
        boundary,
        forth,
        x,
    ) by {
        assert(reaches(graph, boundary, back[0], x));
        assert(reaches(graph, boundary, back[1], x));
    }
    if all_same(forth) {
        assert(forth[1] == forth[0]);
    } else {
        if all_same(back) {
            assert(back[1] == back[0]);
            assert(all_same(forth));
        }
        assert(reaches(graph, boundary, forth[0], id));
        assert(reaches(graph, boundary, forth[1], id));
        if dominated(graph, boundary, back, id) {
            let other = choose|other: Seq<u8>|
                other != id && common_ancestor(graph, boundary, back, other) && #[trigger] reaches(
                    graph,
                    boundary,
                    other,
                    id,
                );
            assert(common_ancestor(graph, boundary, forth, other));
        }
    }
}

/// The merge base of a commit and one of its ancestors is the ancestor,
/// provided that the ancestor lies on no cycle, as no commit of a true
/// history does.
pub proof fn lemma_merge_base_of_ancestor(
    graph: Map<Seq<u8>, NodeModel>,
    boundary: Set<Seq<u8>>,
    descendant: Seq<u8>,
    ancestor: Seq<u8>,
)
    requires
        reaches(graph, boundary, descendant, ancestor),
        walkable(graph, boundary, descendant),
        forall|id: Seq<u8>|
            reaches(graph, boundary, ancestor, id) && reaches(graph, boundary, id, ancestor) ==> id
                == ancestor,
    ensures
        merge_base_outcome(graph, boundary, descendant, ancestor) == Ok::<Seq<u8>, Error>(ancestor),
{
    if descendant != ancestor {
        let tips = seq![descendant, ancestor];
        assert(tips[0] == descendant && tips[1] == ancestor);
        assert(!all_same(tips));
        assert forall|id: Seq<u8>| reaches(graph, boundary, ancestor, id) implies !unresolved(
            graph,
            boundary,
            id,
        ) by {
            lemma_reaches_transitive(graph, boundary, descendant, ancestor, id);
        }
        lemma_reaches_itself(graph, boundary, ancestor);
        assert(common_ancestor(graph, boundary, tips, ancestor));
        if dominated(graph, boundary, tips, ancestor) {
            let other = choose|other: Seq<u8>|
                other != ancestor && common_ancestor(graph, boundary, tips, other)
                    && #[trigger] reaches(graph, boundary, other, ancestor);
            assert(reaches(graph, boundary, tips[1], other));
        }
        assert(is_merge_base(graph, boundary, tips, ancestor));
        assert forall|other: Seq<u8>| #[trigger]
            is_merge_base(graph, boundary, tips, other) implies other == ancestor || lex_lt(
            ancestor,
            other,
        ) by {
            if other != ancestor {
                assert(reaches(graph, boundary, tips[1], other));
                assert(dominated(graph, boundary, tips, other));
            }
        }
        assert(is_least_merge_base(graph, boundary, tips, ancestor));
        lemma_least_merge_base_unique(graph, boundary, tips, ancestor);
    }
}

/// In a linear history, where `top` has the one parent `middle`, `middle`
/// the one parent `bottom`, and `bottom` none, the merge base of `top` and
/// `bottom` is `bottom`.
pub proof fn lemma_merge_base_of_chain(
    graph: Map<Seq<u8>, NodeModel>,
    boundary: Set<Seq<u8>>,
    top: Seq<u8>,
    middle: Seq<u8>,
    bottom: Seq<u8>,
)
    requires
        graph.contains_key(top) && graph[top].parents == seq![middle],
        graph.contains_key(middle) && graph[middle].parents == seq![bottom],
        graph.contains_key(bottom) && graph[bottom].parents == Seq::<Seq<u8>>::empty(),
        !boundary.contains(top) && !boundary.contains(middle),
    ensures
        merge_base_outcome(graph, boundary, top, bottom) == Ok::<Seq<u8>, Error>(bottom),
{
    let path = seq![top, middle, bottom];
    assert(path_between(graph, boundary, path, top, bottom)) by {
        assert forall|i: int| 0 <= i < path.len() - 1 implies links(
            graph,
            boundary,
            #[trigger] path[i],
        ).contains(path[i + 1]) by {
            if i == 0 {
                assert(links(graph, boundary, top)[0] == middle);
            } else {
                assert(links(graph, boundary, middle)[0] == bottom);
            }
        }
    }
    let all = set![top, middle, bottom];
    assert forall|id: Seq<u8>, next: Seq<u8>|
        all.contains(id) && #[trigger] links(graph, boundary, id).contains(next) implies all.contains(
        next,
    ) by {
        let found = links(graph, boundary, id);
        let k = choose|k: int| 0 <= k < found.len() && found[k] == next;
        assert(found[k] == next);
    }
    assert forall|id: Seq<u8>| reaches(graph, boundary, top, id) implies !unresolved(
        graph,
        boundary,
        id,
    ) by {
        lemma_closed_set_holds_reached(graph, boundary, all, top, id);
    }
    let last = set![bottom];
    assert forall|id: Seq<u8>, next: Seq<u8>|
        last.contains(id) && #[trigger] links(graph, boundary, id).contains(
            next,
        ) implies last.contains(next) by {
        let found = links(graph, boundary, id);
        let k = choose|k: int| 0 <= k < found.len() && found[k] == next;
        assert(found[k] == next);
    }
    assert forall|id: Seq<u8>|
        reaches(graph, boundary, bottom, id) && reaches(graph, boundary, id, bottom) implies id
        == bottom by {
        lemma_closed_set_holds_reached(graph, boundary, last, bottom, id);
    }
    lemma_merge_base_of_ancestor(graph, boundary, top, bottom);
}

/// Two commits whose histories share no commit have no merge base.
pub proof fn lemma_disjoint_histories(
    graph: Map<Seq<u8>, NodeModel>,
    boundary: Set<Seq<u8>>,
    one: Seq<u8>,
    two: Seq<u8>,
)
    requires
        walkable(graph, boundary, one),
        walkable(graph, boundary, two),
        forall|id: Seq<u8>| !(reaches(graph, boundary, one, id) && reaches(graph, boundary, two, id)),
    ensures
        merge_base_outcome(graph, boundary, one, two) == Err::<Seq<u8>, Error>(
            Error::NoCommonAncestor,
        ),
        forall|id: Seq<u8>| !is_merge_base(graph, boundary, seq![one, two], id),
{
    let tips = seq![one, two];
    assert(tips[0] == one && tips[1] == two);
    lemma_reaches_itself(graph, boundary, one);
    assert(one != two);
    assert(!all_same(tips));
    assert forall|id: Seq<u8>| !is_merge_base(graph, boundary, tips, id) by {
        if common_ancestor(graph, boundary, tips, id) {
            assert(reaches(graph, boundary, tips[0], id));
            assert(reaches(graph, boundary, tips[1], id));
        }
    }
    assert forall|id: Seq<u8>| !is_least_merge_base(graph, boundary, tips, id) by {
        assert(!is_merge_base(graph, boundary, tips, id));
    }
}

/// The octopus merge base of one commit is that commit.
pub proof fn lemma_octopus_of_one(
    graph: Map<Seq<u8>, NodeModel>,
    boundary: Set<Seq<u8>>,
    id: Seq<u8>,
)
    ensures
        octopus_outcome(graph, boundary, seq![id]) == Ok::<Seq<u8>, Error>(id),
{
    assert(seq![id][0] == id);
}

/// There is no octopus merge base of no commit.
pub proof fn lemma_octopus_of_none(graph: Map<Seq<u8>, NodeModel>, boundary: Set<Seq<u8>>)
    ensures
        octopus_outcome(graph, boundary, Seq::empty()) == Err::<Seq<u8>, Error>(
            Error::InvalidInput,
        ),
{
}

} // verus!
