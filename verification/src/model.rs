//! The mathematical model of the clustering engine: ghost counterparts of
//! clusters, tree nodes and the engine state, together with the spec
//! functions that define tree search, tree insertion, similarity scoring,
//! template generalization and a whole ingest step.

use vstd::prelude::*;
use crate::text::dec_digits;
use crate::text::has_digit_spec;
use crate::text::starts_with_spec;

verus! {

/// A template cluster: an ordered token sequence, its identifier and the
/// number of lines it has absorbed.
pub ghost struct ClusterModel {
    pub tokens: Seq<Seq<char>>,
    pub cluster_id: int,
    pub size: int,
}

/// A prefix-tree node: literal children in insertion order, at most one
/// wildcard child, and the identifiers of the clusters attached here.
pub ghost struct NodeModel {
    pub children: Seq<(Seq<char>, NodeModel)>,
    pub wildcard: Option<Box<NodeModel>>,
    pub cluster_ids: Seq<int>,
}

pub open spec fn empty_node() -> NodeModel {
    NodeModel { children: Seq::empty(), wildcard: None, cluster_ids: Seq::empty() }
}

/// Saturating increment: counters stop one short of wrapping.
pub open spec fn sat_inc(n: int) -> int {
    if n < usize::MAX as int {
        n + 1
    } else {
        n
    }
}

/// A token is classified as a placeholder exactly when it starts with
/// `prefix + name` (the `check` string).
pub open spec fn is_wildcard_token(check: Seq<char>, token: Seq<char>) -> bool {
    starts_with_spec(token, check)
}

/// The placeholder minted for counter value `k`.
pub open spec fn mint_token(prefix: Seq<char>, name: Seq<char>, k: int, suffix: Seq<char>) -> Seq<
    char,
> {
    prefix + name + dec_digits(k as nat) + suffix
}

/// A minted placeholder is classified as a placeholder by its own scheme.
pub proof fn lemma_mint_is_wildcard(prefix: Seq<char>, name: Seq<char>, k: int, suffix: Seq<char>)
    ensures
        is_wildcard_token(prefix + name, mint_token(prefix, name, k, suffix)),
{
    let t = mint_token(prefix, name, k, suffix);
    let check = prefix + name;
    assert(t.subrange(0, check.len() as int) =~= check);
}

/// One generalization pass: position `i` keeps the template token when it
/// equals the observed token or is already a placeholder, and otherwise
/// receives a freshly minted placeholder. Returns the new token sequence and
/// the final mint counter.
pub open spec fn generalize_tokens(
    templ: Seq<Seq<char>>,
    obs: Seq<Seq<char>>,
    check: Seq<char>,
    prefix: Seq<char>,
    name: Seq<char>,
    suffix: Seq<char>,
    counter: int,
) -> (Seq<Seq<char>>, int)
    decreases templ.len(),
{
    if templ.len() == 0 || obs.len() == 0 {
        (Seq::empty(), counter)
    } else if obs[0] == templ[0] || is_wildcard_token(check, templ[0]) {
        let rest = generalize_tokens(
            templ.drop_first(),
            obs.drop_first(),
            check,
            prefix,
            name,
            suffix,
            counter,
        );
        (seq![templ[0]] + rest.0, rest.1)
    } else {
        let rest = generalize_tokens(
            templ.drop_first(),
            obs.drop_first(),
            check,
            prefix,
            name,
            suffix,
            sat_inc(counter),
        );
        (seq![mint_token(prefix, name, sat_inc(counter), suffix)] + rest.0, rest.1)
    }
}

/// Index of the literal child keyed by `token`, or -1 when absent.
pub open spec fn find_child_idx(children: Seq<(Seq<char>, NodeModel)>, token: Seq<char>) -> int
    decreases children.len(),
{
    if children.len() == 0 {
        -1
    } else if children[0].0 == token {
        0
    } else {
        let r = find_child_idx(children.drop_first(), token);
        if r == -1 {
            -1
        } else {
            r + 1
        }
    }
}

pub proof fn lemma_find_child_idx(children: Seq<(Seq<char>, NodeModel)>, token: Seq<char>)
    ensures
        find_child_idx(children, token) == -1 || (0 <= find_child_idx(children, token)
            < children.len() && children[find_child_idx(children, token)].0 == token),
        find_child_idx(children, token) == -1 ==> forall|i: int|
            0 <= i < children.len() ==> (#[trigger] children[i]).0 != token,
    decreases children.len(),
{
    if children.len() > 0 && children[0].0 != token {
        lemma_find_child_idx(children.drop_first(), token);
        assert(forall|i: int|
            1 <= i < children.len() ==> children[i] == children.drop_first()[i - 1]);
    }
}

/// The literal child keyed by `token`, when one exists.
pub open spec fn find_child(children: Seq<(Seq<char>, NodeModel)>, token: Seq<char>) -> Option<
    NodeModel,
> {
    let i = find_child_idx(children, token);
    if i == -1 {
        None
    } else {
        Some(children[i].1)
    }
}

/// The next node of a descent: the literal child for `token` when present,
/// else the wildcard child when present.
pub open spec fn find_next(n: NodeModel, token: Seq<char>) -> Option<NodeModel> {
    match find_child(n.children, token) {
        Some(c) => Some(c),
        None => match n.wildcard {
            Some(b) => Some(*b),
            None => None,
        },
    }
}

/// Tree descent for `tokens` starting below the length partition, at token
/// position `idx` (depth `idx + 1`). Stops at depth `max_node_depth` or on
/// the last token, returning the node reached; fails when neither a literal
/// nor a wildcard child continues the path.
pub open spec fn node_search(
    n: NodeModel,
    tokens: Seq<Seq<char>>,
    idx: int,
    max_node_depth: int,
) -> Option<NodeModel>
    decreases tokens.len() - idx,
{
    if idx < 0 || idx >= tokens.len() || idx + 1 >= max_node_depth || idx + 1 == tokens.len() {
        Some(n)
    } else {
        match find_next(n, tokens[idx]) {
            Some(c) => node_search(c, tokens, idx + 1, max_node_depth),
            None => None,
        }
    }
}

/// Tree insertion for a new cluster `id` with token sequence `tokens`,
/// descending from token position `idx`. The cluster is attached once the
/// maximum node depth or the token count is reached; otherwise the descent
/// follows the literal child, routes numeric tokens through the wildcard,
/// and otherwise chooses between a fresh literal child and the wildcard
/// according to the child-count budget.
pub open spec fn node_insert(
    n: NodeModel,
    tokens: Seq<Seq<char>>,
    idx: int,
    max_node_depth: int,
    max_children: int,
    param_numeric: bool,
    id: int,
) -> NodeModel
    decreases tokens.len() - idx,
{
    if idx < 0 || idx + 1 >= max_node_depth || idx + 1 >= tokens.len() {
        NodeModel { cluster_ids: n.cluster_ids.push(id), ..n }
    } else {
        let t = tokens[idx];
        let k = find_child_idx(n.children, t);
        if k != -1 {
            let sub = node_insert(
                n.children[k].1,
                tokens,
                idx + 1,
                max_node_depth,
                max_children,
                param_numeric,
                id,
            );
            NodeModel { children: n.children.update(k, (t, sub)), ..n }
        } else if param_numeric && has_digit_spec(t) {
            let w = wildcard_of(n);
            let sub = node_insert(
                w,
                tokens,
                idx + 1,
                max_node_depth,
                max_children,
                param_numeric,
                id,
            );
            NodeModel { wildcard: Some(Box::new(sub)), ..n }
        } else if n.wildcard is Some {
            if n.children.len() + 1 < max_children {
                let sub = node_insert(
                    empty_node(),
                    tokens,
                    idx + 1,
                    max_node_depth,
                    max_children,
                    param_numeric,
                    id,
                );
                NodeModel { children: n.children.push((t, sub)), ..n }
            } else {
                let sub = node_insert(
                    wildcard_of(n),
                    tokens,
                    idx + 1,
                    max_node_depth,
                    max_children,
                    param_numeric,
                    id,
                );
                NodeModel { wildcard: Some(Box::new(sub)), ..n }
            }
        } else {
            if n.children.len() + 1 < max_children {
                let sub = node_insert(
                    empty_node(),
                    tokens,
                    idx + 1,
                    max_node_depth,
                    max_children,
                    param_numeric,
                    id,
                );
                NodeModel { children: n.children.push((t, sub)), ..n }
            } else {
                let sub = node_insert(
                    wildcard_of(n),
                    tokens,
                    idx + 1,
                    max_node_depth,
                    max_children,
                    param_numeric,
                    id,
                );
                NodeModel { wildcard: Some(Box::new(sub)), ..n }
            }
        }
    }
}

/// The wildcard child, or a fresh empty node when absent.
pub open spec fn wildcard_of(n: NodeModel) -> NodeModel {
    match n.wildcard {
        Some(b) => *b,
        None => empty_node(),
    }
}

/// Position-wise agreement counts between a template and an observed token
/// sequence: `.0` counts literal positions that agree, `.1` counts template
/// positions that are placeholders.
pub open spec fn sim_counts(templ: Seq<Seq<char>>, obs: Seq<Seq<char>>, check: Seq<char>) -> (
    int,
    int,
)
    decreases templ.len(),
{
    if templ.len() == 0 || obs.len() == 0 {
        (0, 0)
    } else {
        let rest = sim_counts(templ.drop_first(), obs.drop_first(), check);
        if is_wildcard_token(check, templ[0]) {
            (rest.0, rest.1 + 1)
        } else if templ[0] == obs[0] {
            (rest.0 + 1, rest.1)
        } else {
            rest
        }
    }
}

/// Similarity numerator of a candidate template against `obs`, over the
/// common denominator `sim_den_of(obs)`: 0 on a length mismatch, full marks
/// when both are empty, otherwise the number of agreeing positions, with
/// placeholder positions counted as agreement when `include_params` is set.
pub open spec fn sim_num_of(
    templ: Seq<Seq<char>>,
    obs: Seq<Seq<char>>,
    check: Seq<char>,
    include_params: bool,
) -> int {
    if templ.len() != obs.len() {
        0
    } else if obs.len() == 0 {
        1
    } else {
        let c = sim_counts(templ, obs, check);
        c.0 + if include_params {
            c.1
        } else {
            0
        }
    }
}

pub open spec fn sim_den_of(obs: Seq<Seq<char>>) -> int {
    if obs.len() == 0 {
        1
    } else {
        obs.len() as int
    }
}

/// Tie-break count: the number of placeholder positions, 0 on a length
/// mismatch or for the empty template.
pub open spec fn param_count_of(templ: Seq<Seq<char>>, obs: Seq<Seq<char>>, check: Seq<char>) -> int {
    if templ.len() != obs.len() || obs.len() == 0 {
        0
    } else {
        sim_counts(templ, obs, check).1
    }
}

/// Index of the length partition keyed by `key`, or -1 when absent.
pub open spec fn find_partition_idx(parts: Seq<(int, NodeModel)>, key: int) -> int
    decreases parts.len(),
{
    if parts.len() == 0 {
        -1
    } else if parts[0].0 == key {
        0
    } else {
        let r = find_partition_idx(parts.drop_first(), key);
        if r == -1 {
            -1
        } else {
            r + 1
        }
    }
}

pub proof fn lemma_find_partition_idx(parts: Seq<(int, NodeModel)>, key: int)
    ensures
        find_partition_idx(parts, key) == -1 || (0 <= find_partition_idx(parts, key) < parts.len()
            && parts[find_partition_idx(parts, key)].0 == key),
        find_partition_idx(parts, key) == -1 ==> forall|j: int|
            0 <= j < parts.len() ==> (#[trigger] parts[j]).0 != key,
    decreases parts.len(),
{
    if parts.len() > 0 && parts[0].0 != key {
        lemma_find_partition_idx(parts.drop_first(), key);
        assert(forall|i: int| 1 <= i < parts.len() ==> parts[i] == parts.drop_first()[i - 1]);
    }
}

/// `find_partition_idx` returns the first index whose key matches.
pub proof fn lemma_find_partition_first(parts: Seq<(int, NodeModel)>, key: int, k: int)
    requires
        0 <= k <= parts.len(),
        forall|j: int| 0 <= j < k ==> (#[trigger] parts[j]).0 != key,
        k < parts.len() ==> parts[k].0 == key,
    ensures
        k < parts.len() ==> find_partition_idx(parts, key) == k,
        k == parts.len() ==> find_partition_idx(parts, key) == -1,
    decreases parts.len(),
{
    if parts.len() > 0 && parts[0].0 != key {
        assert(forall|j: int| 1 <= j < parts.len() ==> parts[j] == parts.drop_first()[j - 1]);
        lemma_find_partition_first(parts.drop_first(), key, k - 1);
    }
}

/// Every cluster identifier reachable in the subtree, in traversal order:
/// the node's own list first, then the literal children in order, then the
/// wildcard child.
pub open spec fn tree_ids(n: NodeModel) -> Seq<int>
    decreases n, 0int,
{
    n.cluster_ids + children_ids_from(n.children, 0) + (match n.wildcard {
        Some(b) => tree_ids(*b),
        None => Seq::empty(),
    })
}

pub open spec fn children_ids_from(cs: Seq<(Seq<char>, NodeModel)>, i: int) -> Seq<int>
    decreases cs, cs.len() - i,
{
    if i < 0 || i >= cs.len() {
        Seq::empty()
    } else {
        tree_ids(cs[i].1) + children_ids_from(cs, i + 1)
    }
}

/// The identifiers of one child's subtree appear among those collected from
/// position `i` on.
pub proof fn lemma_child_tree_ids(cs: Seq<(Seq<char>, NodeModel)>, i: int, k: int, x: int)
    requires
        0 <= i <= k < cs.len(),
        tree_ids(cs[k].1).contains(x),
    ensures
        children_ids_from(cs, i).contains(x),
    decreases k - i,
{
    if i == k {
        let j = choose|j: int| 0 <= j < tree_ids(cs[k].1).len() && tree_ids(cs[k].1)[j] == x;
        assert(children_ids_from(cs, i)[j] == x);
    } else {
        lemma_child_tree_ids(cs, i + 1, k, x);
        let j = choose|j: int|
            0 <= j < children_ids_from(cs, i + 1).len() && #[trigger] children_ids_from(
                cs,
                i + 1,
            )[j] == x;
        assert(children_ids_from(cs, i)[tree_ids(cs[i].1).len() + j] == x);
    }
}

/// Identifiers attached at the node reached by a descent are identifiers of
/// the subtree searched.
pub proof fn lemma_search_leaf_ids(
    n: NodeModel,
    tokens: Seq<Seq<char>>,
    idx: int,
    max_node_depth: int,
)
    ensures
        match node_search(n, tokens, idx, max_node_depth) {
            Some(leaf) => forall|x: int|
                #[trigger] leaf.cluster_ids.contains(x) ==> tree_ids(n).contains(x),
            None => true,
        },
    decreases tokens.len() - idx,
{
    if idx < 0 || idx >= tokens.len() || idx + 1 >= max_node_depth || idx + 1 == tokens.len() {
        assert forall|x: int| #[trigger] n.cluster_ids.contains(x) implies tree_ids(n).contains(
            x,
        ) by {
            let j = choose|j: int| 0 <= j < n.cluster_ids.len() && n.cluster_ids[j] == x;
            assert(tree_ids(n)[j] == x);
        }
    } else {
        match find_next(n, tokens[idx]) {
            Some(c) => {
                lemma_search_leaf_ids(c, tokens, idx + 1, max_node_depth);
                match node_search(c, tokens, idx + 1, max_node_depth) {
                    Some(leaf) => {
                        assert forall|x: int| #[trigger] leaf.cluster_ids.contains(x) implies
                            tree_ids(n).contains(x) by {
                            assert(tree_ids(c).contains(x));
                            lemma_subtree_ids(n, tokens[idx], c, x);
                        }
                    },
                    None => {},
                }
            },
            None => {},
        }
    }
}

/// Identifiers of the child followed by `find_next` are identifiers of the
/// parent's subtree.
pub proof fn lemma_subtree_ids(n: NodeModel, token: Seq<char>, c: NodeModel, x: int)
    requires
        find_next(n, token) == Some(c),
        tree_ids(c).contains(x),
    ensures
        tree_ids(n).contains(x),
{
    let k = find_child_idx(n.children, token);
    lemma_find_child_idx(n.children, token);
    if k != -1 {
        lemma_child_tree_ids(n.children, 0, k, x);
        let j = choose|j: int|
            0 <= j < children_ids_from(n.children, 0).len() && children_ids_from(n.children, 0)[j]
                == x;
        assert(tree_ids(n)[n.cluster_ids.len() + j] == x);
    } else {
        let j = choose|j: int| 0 <= j < tree_ids(c).len() && tree_ids(c)[j] == x;
        assert(tree_ids(n)[n.cluster_ids.len() + children_ids_from(n.children, 0).len() + j] == x);
    }
}

/// Generalization keeps the template length (of sequences of one length)
/// and never moves the mint counter backwards.
pub proof fn lemma_generalize_len(
    templ: Seq<Seq<char>>,
    obs: Seq<Seq<char>>,
    check: Seq<char>,
    prefix: Seq<char>,
    name: Seq<char>,
    suffix: Seq<char>,
    counter: int,
)
    ensures
        generalize_tokens(templ, obs, check, prefix, name, suffix, counter).0.len() == (if templ.len()
            <= obs.len() {
            templ.len()
        } else {
            obs.len()
        }),
        generalize_tokens(templ, obs, check, prefix, name, suffix, counter).1 >= counter,
    decreases templ.len(),
{
    if templ.len() > 0 && obs.len() > 0 {
        if obs[0] == templ[0] || is_wildcard_token(check, templ[0]) {
            lemma_generalize_len(
                templ.drop_first(),
                obs.drop_first(),
                check,
                prefix,
                name,
                suffix,
                counter,
            );
        } else {
            lemma_generalize_len(
                templ.drop_first(),
                obs.drop_first(),
                check,
                prefix,
                name,
                suffix,
                sat_inc(counter),
            );
        }
    }
}

/// Left fold of the candidate scan: each valid identifier in turn replaces
/// the best seen so far when its similarity is strictly higher, or equal
/// with strictly more placeholder positions. The accumulator and result are
/// `(cluster_id, similarity numerator, placeholder count)`.
pub open spec fn best_match_from(
    ids: Seq<int>,
    clusters: Seq<ClusterModel>,
    obs: Seq<Seq<char>>,
    check: Seq<char>,
    include_params: bool,
    acc: Option<(int, int, int)>,
) -> Option<(int, int, int)>
    decreases ids.len(),
{
    if ids.len() == 0 {
        acc
    } else {
        let id = ids[0];
        let acc2 = if 1 <= id <= clusters.len() {
            let c = clusters[id - 1];
            let num = sim_num_of(c.tokens, obs, check, include_params);
            let pc = param_count_of(c.tokens, obs, check);
            match acc {
                None => Some((id, num, pc)),
                Some(b) => if num > b.1 || (num == b.1 && pc > b.2) {
                    Some((id, num, pc))
                } else {
                    acc
                },
            }
        } else {
            acc
        };
        best_match_from(ids.drop_first(), clusters, obs, check, include_params, acc2)
    }
}

/// A selected candidate is a valid identifier drawn from the list, unless it
/// was already the accumulator.
pub proof fn lemma_best_match_member(
    ids: Seq<int>,
    clusters: Seq<ClusterModel>,
    obs: Seq<Seq<char>>,
    check: Seq<char>,
    include_params: bool,
    acc: Option<(int, int, int)>,
)
    ensures
        match best_match_from(ids, clusters, obs, check, include_params, acc) {
            None => acc is None,
            Some(b) => acc == Some(b) || (ids.contains(b.0) && 1 <= b.0 <= clusters.len()),
        },
    decreases ids.len(),
{
    if ids.len() > 0 {
        let id = ids[0];
        let acc2 = if 1 <= id <= clusters.len() {
            let c = clusters[id - 1];
            let num = sim_num_of(c.tokens, obs, check, include_params);
            let pc = param_count_of(c.tokens, obs, check);
            match acc {
                None => Some((id, num, pc)),
                Some(b) => if num > b.1 || (num == b.1 && pc > b.2) {
                    Some((id, num, pc))
                } else {
                    acc
                },
            }
        } else {
            acc
        };
        lemma_best_match_member(ids.drop_first(), clusters, obs, check, include_params, acc2);
        match best_match_from(ids, clusters, obs, check, include_params, acc) {
            None => {},
            Some(b) => {
                if acc2 == Some(b) && acc != Some(b) {
                    assert(ids[0] == b.0);
                    assert(ids.contains(b.0));
                } else if acc2 != Some(b) {
                    let j = choose|j: int|
                        0 <= j < ids.drop_first().len() && ids.drop_first()[j] == b.0;
                    assert(ids[j + 1] == b.0);
                    assert(ids.contains(b.0));
                }
            },
        }
    }
}

/// A similarity numerator never exceeds the denominator.
pub proof fn lemma_sim_num_bounded(
    templ: Seq<Seq<char>>,
    obs: Seq<Seq<char>>,
    check: Seq<char>,
    include_params: bool,
)
    ensures
        0 <= sim_num_of(templ, obs, check, include_params) <= sim_den_of(obs),
        0 <= param_count_of(templ, obs, check),
{
    if templ.len() == obs.len() && obs.len() > 0 {
        lemma_sim_counts_bounded(templ, obs, check);
    }
}

pub proof fn lemma_sim_counts_bounded(templ: Seq<Seq<char>>, obs: Seq<Seq<char>>, check: Seq<char>)
    ensures
        0 <= sim_counts(templ, obs, check).0,
        0 <= sim_counts(templ, obs, check).1,
        sim_counts(templ, obs, check).0 + sim_counts(templ, obs, check).1 <= templ.len(),
    decreases templ.len(),
{
    if templ.len() > 0 && obs.len() > 0 {
        lemma_sim_counts_bounded(templ.drop_first(), obs.drop_first(), check);
    }
}

/// Position-wise agreement (placeholders included) makes the two counts
/// sum to the whole length.
proof fn lemma_full_counts(templ: Seq<Seq<char>>, obs: Seq<Seq<char>>, check: Seq<char>)
    requires
        templ.len() == obs.len(),
        forall|i: int|
            0 <= i < templ.len() ==> #[trigger] templ[i] == obs[i] || is_wildcard_token(
                check,
                templ[i],
            ),
    ensures
        sim_counts(templ, obs, check).0 + sim_counts(templ, obs, check).1 == templ.len(),
    decreases templ.len(),
{
    if templ.len() > 0 {
        assert(templ[0] == obs[0] || is_wildcard_token(check, templ[0]));
        assert(forall|i: int|
            0 <= i < templ.drop_first().len() ==> templ.drop_first()[i] == templ[i + 1]
                && obs.drop_first()[i] == obs[i + 1]);
        lemma_full_counts(templ.drop_first(), obs.drop_first(), check);
    }
}

/// A template that agrees with the observed tokens on every position
/// (placeholders included) scores full marks.
pub proof fn lemma_full_sim(templ: Seq<Seq<char>>, obs: Seq<Seq<char>>, check: Seq<char>)
    requires
        templ.len() == obs.len(),
        forall|i: int|
            0 <= i < templ.len() ==> #[trigger] templ[i] == obs[i] || is_wildcard_token(
                check,
                templ[i],
            ),
    ensures
        sim_num_of(templ, obs, check, true) == sim_den_of(obs),
{
    lemma_full_counts(templ, obs, check);
}

/// Generalizing a template never loses placeholder positions: the
/// placeholder count against the same observation can only grow.
pub proof fn lemma_generalize_params_grow(
    templ: Seq<Seq<char>>,
    obs: Seq<Seq<char>>,
    check: Seq<char>,
    prefix: Seq<char>,
    name: Seq<char>,
    suffix: Seq<char>,
    counter: int,
)
    requires
        check == prefix + name,
        templ.len() == obs.len(),
    ensures
        sim_counts(
            generalize_tokens(templ, obs, check, prefix, name, suffix, counter).0,
            obs,
            check,
        ).1 >= sim_counts(templ, obs, check).1,
    decreases templ.len(),
{
    if templ.len() > 0 {
        let g = generalize_tokens(templ, obs, check, prefix, name, suffix, counter);
        lemma_generalize_len(templ, obs, check, prefix, name, suffix, counter);
        if obs[0] == templ[0] || is_wildcard_token(check, templ[0]) {
            let rest = generalize_tokens(
                templ.drop_first(),
                obs.drop_first(),
                check,
                prefix,
                name,
                suffix,
                counter,
            );
            lemma_generalize_params_grow(
                templ.drop_first(),
                obs.drop_first(),
                check,
                prefix,
                name,
                suffix,
                counter,
            );
            lemma_generalize_len(
                templ.drop_first(),
                obs.drop_first(),
                check,
                prefix,
                name,
                suffix,
                counter,
            );
            assert(g.0.drop_first() =~= rest.0);
        } else {
            let rest = generalize_tokens(
                templ.drop_first(),
                obs.drop_first(),
                check,
                prefix,
                name,
                suffix,
                sat_inc(counter),
            );
            lemma_generalize_params_grow(
                templ.drop_first(),
                obs.drop_first(),
                check,
                prefix,
                name,
                suffix,
                sat_inc(counter),
            );
            lemma_generalize_len(
                templ.drop_first(),
                obs.drop_first(),
                check,
                prefix,
                name,
                suffix,
                sat_inc(counter),
            );
            lemma_mint_is_wildcard(prefix, name, sat_inc(counter), suffix);
            assert(g.0.drop_first() =~= rest.0);
            assert(is_wildcard_token(check, g.0[0]));
        }
    }
}

/// Folding over a concatenation folds the parts in turn.
pub proof fn lemma_fold_concat(
    a: Seq<int>,
    b: Seq<int>,
    clusters: Seq<ClusterModel>,
    obs: Seq<Seq<char>>,
    check: Seq<char>,
    include_params: bool,
    acc: Option<(int, int, int)>,
)
    ensures
        best_match_from(a + b, clusters, obs, check, include_params, acc) == best_match_from(
            b,
            clusters,
            obs,
            check,
            include_params,
            best_match_from(a, clusters, obs, check, include_params, acc),
        ),
    decreases a.len(),
{
    if a.len() == 0 {
        assert(a + b =~= b);
    } else {
        assert((a + b)[0] == a[0]);
        assert((a + b).drop_first() =~= a.drop_first() + b);
        let id = a[0];
        let acc2 = if 1 <= id <= clusters.len() {
            let c = clusters[id - 1];
            let num = sim_num_of(c.tokens, obs, check, include_params);
            let pc = param_count_of(c.tokens, obs, check);
            match acc {
                None => Some((id, num, pc)),
                Some(bb) => if num > bb.1 || (num == bb.1 && pc > bb.2) {
                    Some((id, num, pc))
                } else {
                    acc
                },
            }
        } else {
            acc
        };
        lemma_fold_concat(a.drop_first(), b, clusters, obs, check, include_params, acc2);
    }
}

/// Strictly higher similarity wins, or the same similarity with strictly
/// more placeholders.
pub open spec fn score_beats(num: int, pc: int, best_num: int, best_pc: int) -> bool {
    num > best_num || (num == best_num && pc > best_pc)
}

/// `find_child_idx` returns the first index whose key matches (stated for
/// callers that know the earlier keys differ).
pub proof fn lemma_find_child_at(s: Seq<(Seq<char>, NodeModel)>, t: Seq<char>, k: int)
    requires
        0 <= k <= s.len(),
        forall|j: int| 0 <= j < k ==> (#[trigger] s[j]).0 != t,
        k < s.len() ==> s[k].0 == t,
    ensures
        k < s.len() ==> find_child_idx(s, t) == k,
        k == s.len() ==> find_child_idx(s, t) == -1,
    decreases s.len(),
{
    if s.len() > 0 && s[0].0 != t {
        assert(forall|j: int| 1 <= j < s.len() ==> s[j] == s.drop_first()[j - 1]);
        lemma_find_child_at(s.drop_first(), t, k - 1);
    }
}

/// No key before the index found matches.
pub proof fn lemma_find_child_prefix(children: Seq<(Seq<char>, NodeModel)>, token: Seq<char>)
    ensures
        find_child_idx(children, token) != -1 ==> forall|j: int|
            0 <= j < find_child_idx(children, token) ==> (#[trigger] children[j]).0 != token,
        find_child_idx(children, token) == -1 ==> forall|j: int|
            0 <= j < children.len() ==> (#[trigger] children[j]).0 != token,
    decreases children.len(),
{
    if children.len() > 0 && children[0].0 != token {
        lemma_find_child_prefix(children.drop_first(), token);
        lemma_find_child_idx(children.drop_first(), token);
        let r = find_child_idx(children.drop_first(), token);
        if r != -1 {
            assert forall|j: int|
                0 <= j < find_child_idx(children, token) implies (#[trigger] children[j]).0
                != token by {
                if j >= 1 {
                    assert(children[j] == children.drop_first()[j - 1]);
                    assert(children.drop_first()[j - 1].0 != token);
                }
            }
        } else {
            assert forall|j: int|
                0 <= j < children.len() implies (#[trigger] children[j]).0 != token by {
                if j >= 1 {
                    assert(children[j] == children.drop_first()[j - 1]);
                    assert(children.drop_first()[j - 1].0 != token);
                }
            }
        }
    }
}

/// A freshly created path holds exactly the inserted identifier at the node
/// the search reaches.
pub proof fn lemma_fresh_insert_search(
    tokens: Seq<Seq<char>>,
    idx: int,
    mnd: int,
    mc: int,
    pn: bool,
    id: int,
)
    requires
        0 <= idx,
    ensures
        ({
            let n2 = node_insert(empty_node(), tokens, idx, mnd, mc, pn, id);
            match node_search(n2, tokens, idx, mnd) {
                Some(leaf) => leaf.cluster_ids =~= seq![id],
                None => false,
            }
        }),
    decreases tokens.len() - idx,
{
    let n = empty_node();
    let n2 = node_insert(n, tokens, idx, mnd, mc, pn, id);
    if idx + 1 >= mnd || idx + 1 >= tokens.len() {
        assert(Seq::<int>::empty().push(id) =~= seq![id]);
    } else {
        let t = tokens[idx];
        assert(find_child_idx(n.children, t) == -1);
        lemma_fresh_insert_search(tokens, idx + 1, mnd, mc, pn, id);
        if pn && has_digit_spec(t) {
            assert(find_child_idx(n2.children, t) == -1);
        } else if n.children.len() + 1 < mc {
            assert(n2.children[0].0 == t);
            lemma_find_child_at(n2.children, t, 0);
        } else {
            assert(find_child_idx(n2.children, t) == -1);
        }
    }
}

/// After a cluster is filed, the descent for its tokens reaches a node
/// whose candidate list is the old list with the new identifier appended,
/// or a fresh node holding only the new identifier; the descent never
/// dead-ends.
pub proof fn lemma_search_after_insert(
    n: NodeModel,
    tokens: Seq<Seq<char>>,
    idx: int,
    mnd: int,
    mc: int,
    pn: bool,
    id: int,
)
    requires
        0 <= idx,
    ensures
        ({
            let n2 = node_insert(n, tokens, idx, mnd, mc, pn, id);
            match node_search(n2, tokens, idx, mnd) {
                Some(leaf2) => match node_search(n, tokens, idx, mnd) {
                    Some(leaf1) => leaf2.cluster_ids == leaf1.cluster_ids.push(id)
                        || leaf2.cluster_ids =~= seq![id],
                    None => leaf2.cluster_ids =~= seq![id],
                },
                None => false,
            }
        }),
    decreases tokens.len() - idx,
{
    let n2 = node_insert(n, tokens, idx, mnd, mc, pn, id);
    if idx + 1 >= mnd || idx + 1 >= tokens.len() {
    } else {
        let t = tokens[idx];
        let k = find_child_idx(n.children, t);
        lemma_find_child_idx(n.children, t);
        lemma_find_child_prefix(n.children, t);
        if k != -1 {
            let sub = node_insert(n.children[k].1, tokens, idx + 1, mnd, mc, pn, id);
            assert(forall|j: int| 0 <= j < k ==> (#[trigger] n2.children[j]).0 != t);
            assert(n2.children[k].0 == t);
            lemma_find_child_at(n2.children, t, k);
            lemma_search_after_insert(n.children[k].1, tokens, idx + 1, mnd, mc, pn, id);
        } else if pn && has_digit_spec(t) {
            assert(forall|j: int|
                0 <= j < n2.children.len() ==> (#[trigger] n2.children[j]).0 != t);
            lemma_find_child_at(n2.children, t, n2.children.len() as int);
            match n.wildcard {
                Some(b) => {
                    lemma_search_after_insert(*b, tokens, idx + 1, mnd, mc, pn, id);
                },
                None => {
                    lemma_fresh_insert_search(tokens, idx + 1, mnd, mc, pn, id);
                },
            }
        } else if n.children.len() + 1 < mc {
            assert(forall|j: int|
                0 <= j < n.children.len() ==> (#[trigger] n2.children[j]).0 == n.children[j].0
                    && n.children[j].0 != t);
            assert(n2.children[n.children.len() as int].0 == t);
            lemma_find_child_at(n2.children, t, n.children.len() as int);
            lemma_fresh_insert_search(tokens, idx + 1, mnd, mc, pn, id);
        } else {
            assert(forall|j: int|
                0 <= j < n2.children.len() ==> (#[trigger] n2.children[j]).0 != t);
            lemma_find_child_at(n2.children, t, n2.children.len() as int);
            match n.wildcard {
                Some(b) => {
                    lemma_search_after_insert(*b, tokens, idx + 1, mnd, mc, pn, id);
                },
                None => {
                    lemma_fresh_insert_search(tokens, idx + 1, mnd, mc, pn, id);
                },
            }
        }
    }
}

/// Collected identifiers agree wherever the child lists agree from the
/// given position on.
proof fn lemma_cif_agree(
    cs1: Seq<(Seq<char>, NodeModel)>,
    cs2: Seq<(Seq<char>, NodeModel)>,
    i: int,
)
    requires
        cs1.len() == cs2.len(),
        forall|j: int| i <= j < cs1.len() ==> cs1[j] == cs2[j],
    ensures
        children_ids_from(cs1, i) == children_ids_from(cs2, i),
    decreases cs1.len() - i,
{
    if 0 <= i < cs1.len() {
        lemma_cif_agree(cs1, cs2, i + 1);
    }
}

/// Replacing one child changes the collected identifiers by exactly what
/// the replacement's subtree adds.
proof fn lemma_cif_update_multiset(
    cs: Seq<(Seq<char>, NodeModel)>,
    k: int,
    t: Seq<char>,
    sub: NodeModel,
    id: int,
    i: int,
)
    requires
        0 <= i <= k < cs.len(),
        tree_ids(sub).to_multiset() == tree_ids(cs[k].1).to_multiset().insert(id),
    ensures
        children_ids_from(cs.update(k, (t, sub)), i).to_multiset() == children_ids_from(
            cs,
            i,
        ).to_multiset().insert(id),
    decreases k - i,
{
    broadcast use vstd::seq_lib::group_to_multiset_ensures;

    let cs2 = cs.update(k, (t, sub));
    if i == k {
        lemma_cif_agree(cs2, cs, k + 1);
        vstd::seq_lib::lemma_multiset_commutative(tree_ids(sub), children_ids_from(cs2, k + 1));
        vstd::seq_lib::lemma_multiset_commutative(
            tree_ids(cs[k].1),
            children_ids_from(cs, k + 1),
        );
        assert(children_ids_from(cs2, i).to_multiset() =~= children_ids_from(
            cs,
            i,
        ).to_multiset().insert(id));
    } else {
        lemma_cif_update_multiset(cs, k, t, sub, id, i + 1);
        assert(cs2[i] == cs[i]);
        vstd::seq_lib::lemma_multiset_commutative(
            tree_ids(cs2[i].1),
            children_ids_from(cs2, i + 1),
        );
        vstd::seq_lib::lemma_multiset_commutative(
            tree_ids(cs[i].1),
            children_ids_from(cs, i + 1),
        );
        assert(children_ids_from(cs2, i).to_multiset() =~= children_ids_from(
            cs,
            i,
        ).to_multiset().insert(id));
    }
}

/// Appending a child adds exactly its subtree's identifiers.
proof fn lemma_cif_push_multiset(
    cs: Seq<(Seq<char>, NodeModel)>,
    t: Seq<char>,
    sub: NodeModel,
    i: int,
)
    requires
        0 <= i <= cs.len(),
    ensures
        children_ids_from(cs.push((t, sub)), i).to_multiset() == children_ids_from(
            cs,
            i,
        ).to_multiset().add(tree_ids(sub).to_multiset()),
    decreases cs.len() - i,
{
    broadcast use vstd::seq_lib::group_to_multiset_ensures;

    let cs2 = cs.push((t, sub));
    if i == cs.len() {
        assert(children_ids_from(cs2, cs.len() as int + 1) =~= Seq::<int>::empty());
        vstd::seq_lib::lemma_multiset_commutative(
            tree_ids(sub),
            children_ids_from(cs2, cs.len() as int + 1),
        );
        assert(children_ids_from(cs2, i).to_multiset() =~= children_ids_from(
            cs,
            i,
        ).to_multiset().add(tree_ids(sub).to_multiset()));
    } else {
        lemma_cif_push_multiset(cs, t, sub, i + 1);
        assert(cs2[i] == cs[i]);
        vstd::seq_lib::lemma_multiset_commutative(
            tree_ids(cs2[i].1),
            children_ids_from(cs2, i + 1),
        );
        vstd::seq_lib::lemma_multiset_commutative(
            tree_ids(cs[i].1),
            children_ids_from(cs, i + 1),
        );
        assert(children_ids_from(cs2, i).to_multiset() =~= children_ids_from(
            cs,
            i,
        ).to_multiset().add(tree_ids(sub).to_multiset()));
    }
}

/// The empty node reaches no identifiers.
pub proof fn lemma_tree_ids_empty()
    ensures
        tree_ids(empty_node()).len() == 0,
{
    assert(children_ids_from(Seq::<(Seq<char>, NodeModel)>::empty(), 0) =~= Seq::<int>::empty());
}

/// Filing a cluster adds its identifier exactly once: the reachable
/// identifiers of the new tree are the old ones plus the new identifier, as
/// a multiset.
pub proof fn lemma_insert_ids_multiset(
    n: NodeModel,
    tokens: Seq<Seq<char>>,
    idx: int,
    max_node_depth: int,
    max_children: int,
    param_numeric: bool,
    id: int,
)
    ensures
        tree_ids(
            node_insert(n, tokens, idx, max_node_depth, max_children, param_numeric, id),
        ).to_multiset() == tree_ids(n).to_multiset().insert(id),
    decreases tokens.len() - idx,
{
    broadcast use vstd::seq_lib::group_to_multiset_ensures;

    let n2 = node_insert(n, tokens, idx, max_node_depth, max_children, param_numeric, id);
    let wild_ids = (match n.wildcard {
        Some(b) => tree_ids(*b),
        None => Seq::<int>::empty(),
    });
    let base = n.cluster_ids + children_ids_from(n.children, 0);
    vstd::seq_lib::lemma_multiset_commutative(n.cluster_ids, children_ids_from(n.children, 0));
    vstd::seq_lib::lemma_multiset_commutative(base, wild_ids);
    if idx < 0 || idx + 1 >= max_node_depth || idx + 1 >= tokens.len() {
        let base2 = n.cluster_ids.push(id) + children_ids_from(n.children, 0);
        vstd::seq_lib::lemma_multiset_commutative(
            n.cluster_ids.push(id),
            children_ids_from(n.children, 0),
        );
        vstd::seq_lib::lemma_multiset_commutative(base2, wild_ids);
        assert(tree_ids(n2).to_multiset() =~= tree_ids(n).to_multiset().insert(id));
    } else {
        let t = tokens[idx];
        let k = find_child_idx(n.children, t);
        lemma_find_child_idx(n.children, t);
        if k != -1 {
            let sub = node_insert(
                n.children[k].1,
                tokens,
                idx + 1,
                max_node_depth,
                max_children,
                param_numeric,
                id,
            );
            lemma_insert_ids_multiset(
                n.children[k].1,
                tokens,
                idx + 1,
                max_node_depth,
                max_children,
                param_numeric,
                id,
            );
            lemma_cif_update_multiset(n.children, k, t, sub, id, 0);
            let base2 = n.cluster_ids + children_ids_from(n.children.update(k, (t, sub)), 0);
            vstd::seq_lib::lemma_multiset_commutative(
                n.cluster_ids,
                children_ids_from(n.children.update(k, (t, sub)), 0),
            );
            vstd::seq_lib::lemma_multiset_commutative(base2, wild_ids);
            assert(tree_ids(n2).to_multiset() =~= tree_ids(n).to_multiset().insert(id));
        } else if (param_numeric && has_digit_spec(t)) || !(n.children.len() + 1 < max_children) {
            let sub = node_insert(
                wildcard_of(n),
                tokens,
                idx + 1,
                max_node_depth,
                max_children,
                param_numeric,
                id,
            );
            lemma_insert_ids_multiset(
                wildcard_of(n),
                tokens,
                idx + 1,
                max_node_depth,
                max_children,
                param_numeric,
                id,
            );
            if n.wildcard is None {
                lemma_tree_ids_empty();
                assert(tree_ids(wildcard_of(n)).to_multiset() =~= wild_ids.to_multiset());
            }
            vstd::seq_lib::lemma_multiset_commutative(base, tree_ids(sub));
            assert(tree_ids(n2).to_multiset() =~= tree_ids(n).to_multiset().insert(id));
        } else {
            let sub = node_insert(
                empty_node(),
                tokens,
                idx + 1,
                max_node_depth,
                max_children,
                param_numeric,
                id,
            );
            lemma_insert_ids_multiset(
                empty_node(),
                tokens,
                idx + 1,
                max_node_depth,
                max_children,
                param_numeric,
                id,
            );
            lemma_tree_ids_empty();
            lemma_cif_push_multiset(n.children, t, sub, 0);
            let base2 = n.cluster_ids + children_ids_from(n.children.push((t, sub)), 0);
            vstd::seq_lib::lemma_multiset_commutative(
                n.cluster_ids,
                children_ids_from(n.children.push((t, sub)), 0),
            );
            vstd::seq_lib::lemma_multiset_commutative(base2, wild_ids);
            assert(tree_ids(n2).to_multiset() =~= tree_ids(n).to_multiset().insert(id));
        }
    }
}

/// Filing a fresh identifier keeps the tree duplicate-free, reaches the new
/// identifier, and keeps every old identifier reachable.
pub proof fn lemma_insert_ids_fresh(
    n: NodeModel,
    tokens: Seq<Seq<char>>,
    idx: int,
    max_node_depth: int,
    max_children: int,
    param_numeric: bool,
    id: int,
)
    requires
        tree_ids(n).no_duplicates(),
        !tree_ids(n).contains(id),
    ensures
        ({
            let ids2 = tree_ids(
                node_insert(n, tokens, idx, max_node_depth, max_children, param_numeric, id),
            );
            &&& ids2.no_duplicates()
            &&& ids2.contains(id)
            &&& forall|x: int| tree_ids(n).contains(x) ==> #[trigger] ids2.contains(x)
            &&& forall|x: int| #[trigger] ids2.contains(x) ==> tree_ids(n).contains(x) || x == id
        }),
{
    broadcast use vstd::seq_lib::group_to_multiset_ensures;
    broadcast use vstd::multiset::group_multiset_axioms;

    lemma_insert_ids_multiset(n, tokens, idx, max_node_depth, max_children, param_numeric, id);
    let ids1 = tree_ids(n);
    let ids2 = tree_ids(
        node_insert(n, tokens, idx, max_node_depth, max_children, param_numeric, id),
    );
    ids1.lemma_multiset_has_no_duplicates();
    assert(ids2.to_multiset().count(id) == ids1.to_multiset().count(id) + 1);
    assert(ids1.to_multiset().count(id) == 0);
    assert forall|x: int| ids2.to_multiset().contains(x) implies ids2.to_multiset().count(x)
        == 1 by {
        if x != id {
            assert(ids2.to_multiset().count(x) == ids1.to_multiset().count(x));
        }
    }
    ids2.lemma_multiset_has_no_duplicates_conv();
    assert forall|x: int| ids1.contains(x) implies #[trigger] ids2.contains(x) by {
        assert(ids1.to_multiset().count(x) > 0);
        assert(ids2.to_multiset().count(x) == ids1.to_multiset().count(x) + (if x == id {
            1int
        } else {
            0int
        }));
    }
    assert forall|x: int| #[trigger] ids2.contains(x) implies ids1.contains(x) || x == id by {
        if x != id {
            assert(ids2.to_multiset().count(x) == ids1.to_multiset().count(x));
        }
    }
}

/// No key before the partition index found matches.
pub proof fn lemma_find_partition_prefix(parts: Seq<(int, NodeModel)>, key: int)
    ensures
        find_partition_idx(parts, key) != -1 ==> forall|j: int|
            0 <= j < find_partition_idx(parts, key) ==> (#[trigger] parts[j]).0 != key,
    decreases parts.len(),
{
    if parts.len() > 0 && parts[0].0 != key {
        lemma_find_partition_prefix(parts.drop_first(), key);
        lemma_find_partition_idx(parts.drop_first(), key);
        let r = find_partition_idx(parts.drop_first(), key);
        if r != -1 {
            assert forall|j: int|
                0 <= j < find_partition_idx(parts, key) implies (#[trigger] parts[j]).0 != key by {
                if j >= 1 {
                    assert(parts[j] == parts.drop_first()[j - 1]);
                    assert(parts.drop_first()[j - 1].0 != key);
                }
            }
        }
    }
}

/// The fold sees only the clusters its candidates name: two tables that
/// agree on every candidate give the same fold.
pub proof fn lemma_fold_agree(
    ids: Seq<int>,
    cs1: Seq<ClusterModel>,
    cs2: Seq<ClusterModel>,
    obs: Seq<Seq<char>>,
    check: Seq<char>,
    include_params: bool,
    acc: Option<(int, int, int)>,
)
    requires
        forall|j: int|
            0 <= j < ids.len() ==> 1 <= #[trigger] ids[j] <= cs1.len() && ids[j] <= cs2.len()
                && cs2[ids[j] - 1] == cs1[ids[j] - 1],
    ensures
        best_match_from(ids, cs1, obs, check, include_params, acc) == best_match_from(
            ids,
            cs2,
            obs,
            check,
            include_params,
            acc,
        ),
    decreases ids.len(),
{
    if ids.len() > 0 {
        assert(forall|j: int| 1 <= j < ids.len() ==> ids[j] == ids.drop_first()[j - 1]);
        let y = ids[0];
        assert(cs2[y - 1] == cs1[y - 1]);
        let acc2 = if 1 <= y <= cs1.len() {
            let c = cs1[y - 1];
            let num = sim_num_of(c.tokens, obs, check, include_params);
            let pc = param_count_of(c.tokens, obs, check);
            match acc {
                None => Some((y, num, pc)),
                Some(b) => if num > b.1 || (num == b.1 && pc > b.2) {
                    Some((y, num, pc))
                } else {
                    acc
                },
            }
        } else {
            acc
        };
        lemma_fold_agree(ids.drop_first(), cs1, cs2, obs, check, include_params, acc2);
    }
}

/// A full-similarity candidate processed last wins over any accumulator of
/// lower similarity.
pub proof fn lemma_fold_single(
    clusters: Seq<ClusterModel>,
    obs: Seq<Seq<char>>,
    check: Seq<char>,
    id: int,
    acc: Option<(int, int, int)>,
)
    requires
        1 <= id <= clusters.len(),
        sim_num_of(clusters[id - 1].tokens, obs, check, true) == sim_den_of(obs),
        acc matches Some(b) ==> b.1 < sim_den_of(obs),
    ensures
        best_match_from(seq![id], clusters, obs, check, true, acc) == Some(
            (id, sim_den_of(obs), param_count_of(clusters[id - 1].tokens, obs, check)),
        ),
{
    let ids = seq![id];
    assert(ids[0] == id);
    assert(ids.drop_first() =~= Seq::<int>::empty());
    let num = sim_num_of(clusters[id - 1].tokens, obs, check, true);
    let pc = param_count_of(clusters[id - 1].tokens, obs, check);
    let acc2 = match acc {
        None => Some((id, num, pc)),
        Some(b) => if num > b.1 || (num == b.1 && pc > b.2) {
            Some((id, num, pc))
        } else {
            acc
        },
    };
    assert(acc2 == Some((id, num, pc)));
    assert(best_match_from(ids, clusters, obs, check, true, acc) == best_match_from(
        ids.drop_first(),
        clusters,
        obs,
        check,
        true,
        acc2,
    ));
    assert(best_match_from(Seq::<int>::empty(), clusters, obs, check, true, acc2) == acc2);
}

/// Full marks only come from position-wise agreement: a candidate whose
/// similarity numerator is the whole denominator has the observed length
/// and agrees (or holds a placeholder) at every position.
pub proof fn lemma_full_sim_conv(templ: Seq<Seq<char>>, obs: Seq<Seq<char>>, check: Seq<char>)
    requires
        sim_num_of(templ, obs, check, true) == sim_den_of(obs),
    ensures
        templ.len() == obs.len(),
        forall|i: int|
            0 <= i < templ.len() ==> #[trigger] templ[i] == obs[i] || is_wildcard_token(
                check,
                templ[i],
            ),
    decreases templ.len(),
{
    if templ.len() != obs.len() {
        assert(sim_num_of(templ, obs, check, true) == 0);
        assert(sim_den_of(obs) >= 1);
    } else if templ.len() > 0 {
        lemma_sim_counts_bounded(templ, obs, check);
        lemma_sim_counts_bounded(templ.drop_first(), obs.drop_first(), check);
        if !(templ[0] == obs[0] || is_wildcard_token(check, templ[0])) {
            assert(sim_counts(templ, obs, check).0 + sim_counts(templ, obs, check).1 < templ.len());
        } else {
            assert(sim_counts(templ.drop_first(), obs.drop_first(), check).0 + sim_counts(
                templ.drop_first(),
                obs.drop_first(),
                check,
            ).1 == templ.len() - 1);
            if templ.len() == 1 {
            } else {
                assert(sim_num_of(templ.drop_first(), obs.drop_first(), check, true)
                    == sim_den_of(obs.drop_first()));
                lemma_full_sim_conv(templ.drop_first(), obs.drop_first(), check);
                assert forall|i: int|
                    0 <= i < templ.len() implies #[trigger] templ[i] == obs[i]
                    || is_wildcard_token(check, templ[i]) by {
                    if i > 0 {
                        assert(templ.drop_first()[i - 1] == templ[i]);
                        assert(obs.drop_first()[i - 1] == obs[i]);
                    }
                }
            }
        }
    }
}

/// The fold keeps the true score of whatever it returns; the winner is
/// never beaten by any candidate of the list nor by the accumulator; a
/// valid accumulator or candidate forces a result.
pub proof fn lemma_fold_winner(
    ids: Seq<int>,
    clusters: Seq<ClusterModel>,
    obs: Seq<Seq<char>>,
    check: Seq<char>,
    include_params: bool,
    acc: Option<(int, int, int)>,
)
    requires
        acc matches Some(b) ==> 1 <= b.0 <= clusters.len() && b.1 == sim_num_of(
            clusters[b.0 - 1].tokens,
            obs,
            check,
            include_params,
        ) && b.2 == param_count_of(clusters[b.0 - 1].tokens, obs, check),
    ensures
        ({
            let r = best_match_from(ids, clusters, obs, check, include_params, acc);
            match r {
                None => acc is None && forall|j: int|
                    0 <= j < ids.len() ==> !(1 <= #[trigger] ids[j] <= clusters.len()),
                Some(b) => {
                    &&& 1 <= b.0 <= clusters.len()
                    &&& b.1 == sim_num_of(clusters[b.0 - 1].tokens, obs, check, include_params)
                    &&& b.2 == param_count_of(clusters[b.0 - 1].tokens, obs, check)
                    &&& forall|j: int|
                        0 <= j < ids.len() && 1 <= #[trigger] ids[j] <= clusters.len()
                            ==> !score_beats(
                            sim_num_of(clusters[ids[j] - 1].tokens, obs, check, include_params),
                            param_count_of(clusters[ids[j] - 1].tokens, obs, check),
                            b.1,
                            b.2,
                        )
                    &&& (acc matches Some(a) ==> !score_beats(a.1, a.2, b.1, b.2))
                },
            }
        }),
    decreases ids.len(),
{
    if ids.len() > 0 {
        let id = ids[0];
        let acc2 = if 1 <= id <= clusters.len() {
            let c = clusters[id - 1];
            let num = sim_num_of(c.tokens, obs, check, include_params);
            let pc = param_count_of(c.tokens, obs, check);
            match acc {
                None => Some((id, num, pc)),
                Some(bb) => if num > bb.1 || (num == bb.1 && pc > bb.2) {
                    Some((id, num, pc))
                } else {
                    acc
                },
            }
        } else {
            acc
        };
        lemma_fold_winner(ids.drop_first(), clusters, obs, check, include_params, acc2);
        assert(forall|j: int| 1 <= j < ids.len() ==> ids[j] == ids.drop_first()[j - 1]);
    }
}

/// The stored score of an accumulator entry is the candidate's true score.
pub open spec fn score_ok(
    b: (int, int, int),
    clusters: Seq<ClusterModel>,
    obs: Seq<Seq<char>>,
    check: Seq<char>,
) -> bool {
    &&& 1 <= b.0 <= clusters.len()
    &&& b.1 == sim_num_of(clusters[b.0 - 1].tokens, obs, check, true)
    &&& b.2 == param_count_of(clusters[b.0 - 1].tokens, obs, check)
}

/// The lockstep relation between the fold over the old table and the fold
/// over the upgraded table: either the upgraded fold already holds the
/// upgraded cluster at full similarity (and the old accumulator cannot
/// strictly beat it), or the two accumulators agree and neither holds the
/// upgraded cluster.
pub open spec fn fold_rel(
    acc1: Option<(int, int, int)>,
    acc2: Option<(int, int, int)>,
    cs1: Seq<ClusterModel>,
    cs2: Seq<ClusterModel>,
    obs: Seq<Seq<char>>,
    check: Seq<char>,
    id: int,
) -> bool {
    ||| (acc1 is None && acc2 is None)
    ||| (acc1 matches Some(b1) && acc2 matches Some(b2) && score_ok(b1, cs1, obs, check)
        && score_ok(b2, cs2, obs, check) && ((b2.0 == id && (b1.1 < sim_den_of(obs) || (b1.1
        == sim_den_of(obs) && b1.2 <= b2.2))) || (b2 == b1 && b1.0 != id)))
}

/// Lockstep fold: when one cluster's template is upgraded to full
/// similarity without losing placeholder positions, the relation between
/// the two folds is preserved over any candidate list.
pub proof fn lemma_fold_upgrade(
    ids: Seq<int>,
    cs1: Seq<ClusterModel>,
    cs2: Seq<ClusterModel>,
    obs: Seq<Seq<char>>,
    check: Seq<char>,
    id: int,
    acc1: Option<(int, int, int)>,
    acc2: Option<(int, int, int)>,
)
    requires
        cs1.len() == cs2.len(),
        1 <= id <= cs1.len(),
        forall|y: int| 1 <= y <= cs1.len() && y != id ==> #[trigger] cs2[y - 1] == cs1[y - 1],
        sim_num_of(cs2[id - 1].tokens, obs, check, true) == sim_den_of(obs),
        param_count_of(cs2[id - 1].tokens, obs, check) >= param_count_of(
            cs1[id - 1].tokens,
            obs,
            check,
        ),
        fold_rel(acc1, acc2, cs1, cs2, obs, check, id),
    ensures
        fold_rel(
            best_match_from(ids, cs1, obs, check, true, acc1),
            best_match_from(ids, cs2, obs, check, true, acc2),
            cs1,
            cs2,
            obs,
            check,
            id,
        ),
    decreases ids.len(),
{
    if ids.len() > 0 {
        let y = ids[0];
        let den = sim_den_of(obs);
        if 1 <= y <= cs1.len() {
            lemma_sim_num_bounded(cs1[y - 1].tokens, obs, check, true);
            lemma_sim_num_bounded(cs2[y - 1].tokens, obs, check, true);
            lemma_sim_num_bounded(cs1[id - 1].tokens, obs, check, true);
        }
        let acc1b = if 1 <= y <= cs1.len() {
            let n1y = sim_num_of(cs1[y - 1].tokens, obs, check, true);
            let p1y = param_count_of(cs1[y - 1].tokens, obs, check);
            match acc1 {
                None => Some((y, n1y, p1y)),
                Some(b) => if score_beats(n1y, p1y, b.1, b.2) {
                    Some((y, n1y, p1y))
                } else {
                    acc1
                },
            }
        } else {
            acc1
        };
        let acc2b = if 1 <= y <= cs2.len() {
            let n2y = sim_num_of(cs2[y - 1].tokens, obs, check, true);
            let p2y = param_count_of(cs2[y - 1].tokens, obs, check);
            match acc2 {
                None => Some((y, n2y, p2y)),
                Some(b) => if score_beats(n2y, p2y, b.1, b.2) {
                    Some((y, n2y, p2y))
                } else {
                    acc2
                },
            }
        } else {
            acc2
        };
        assert(best_match_from(ids, cs1, obs, check, true, acc1) == best_match_from(
            ids.drop_first(),
            cs1,
            obs,
            check,
            true,
            acc1b,
        ));
        assert(best_match_from(ids, cs2, obs, check, true, acc2) == best_match_from(
            ids.drop_first(),
            cs2,
            obs,
            check,
            true,
            acc2b,
        ));
        if y == id {
            assert(fold_rel(acc1b, acc2b, cs1, cs2, obs, check, id));
        } else if 1 <= y <= cs1.len() {
            assert(cs2[y - 1] == cs1[y - 1]);
            assert(fold_rel(acc1b, acc2b, cs1, cs2, obs, check, id));
        } else {
            assert(fold_rel(acc1b, acc2b, cs1, cs2, obs, check, id));
        }
        lemma_fold_upgrade(ids.drop_first(), cs1, cs2, obs, check, id, acc1b, acc2b);
    }
}

/// The identifier of the best candidate, provided its similarity meets the
/// threshold `th_num / th_den`.
pub open spec fn fast_match_spec(
    ids: Seq<int>,
    clusters: Seq<ClusterModel>,
    obs: Seq<Seq<char>>,
    check: Seq<char>,
    include_params: bool,
    th_num: int,
    th_den: int,
) -> Option<int> {
    match best_match_from(ids, clusters, obs, check, include_params, None) {
        None => None,
        Some(b) => if b.1 * th_den >= th_num * sim_den_of(obs) {
            Some(b.0)
        } else {
            None
        },
    }
}

} // verus!
