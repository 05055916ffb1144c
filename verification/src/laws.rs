//! Engine-level laws: facts about whole ingest steps, proved over the ghost
//! model that `Drain::add_log_message` is specified against.

use vstd::prelude::*;
use crate::cluster::UpdateType;
use crate::drain::DrainModel;
use crate::drain::ingest_spec;
use crate::drain::lemma_ingest_preserves_wf;
use crate::drain::lemma_match_id_valid;
use crate::drain::model_wf;
use crate::cluster::SearchStrategy;
use crate::drain::drain_match_tokens;
use crate::drain::match_spec;
use crate::drain::partition_ok;
use crate::model::ClusterModel;
use crate::model::best_match_from;
use crate::model::empty_node;
use crate::model::find_partition_idx;
use crate::model::generalize_tokens;
use crate::model::is_wildcard_token;
use crate::model::lemma_find_partition_first;
use crate::model::lemma_find_partition_idx;
use crate::model::lemma_find_partition_prefix;
use crate::model::lemma_fold_agree;
use crate::model::lemma_fold_concat;
use crate::model::lemma_fold_single;
use crate::model::lemma_fold_upgrade;
use crate::model::lemma_fresh_insert_search;
use crate::model::lemma_full_sim;
use crate::model::lemma_generalize_params_grow;
use crate::model::lemma_mint_is_wildcard;
use crate::model::lemma_search_after_insert;
use crate::model::lemma_search_leaf_ids;
use crate::model::node_insert;
use crate::model::node_search;
use crate::model::param_count_of;
use crate::model::sat_inc;
use crate::model::sim_den_of;
use crate::model::sim_num_of;
use crate::model::tree_ids;
use crate::text::tokenize_spec;

verus! {

/// The engine state after a sequence of lines has been ingested, in order.
pub open spec fn ingest_all(d: DrainModel, lines: Seq<Seq<char>>) -> DrainModel
    decreases lines.len(),
{
    if lines.len() == 0 {
        d
    } else {
        ingest_all(ingest_spec(d, lines[0]).0, lines.drop_first())
    }
}

/// Ingesting never removes clusters, and a `Created` ingest mints exactly
/// the next identifier.
pub proof fn lemma_ingest_grows(d: DrainModel, content: Seq<char>)
    requires
        model_wf(d),
    ensures
        ingest_spec(d, content).0.clusters.len() >= d.clusters.len(),
        ingest_spec(d, content).2 == UpdateType::Created ==> ingest_spec(d, content).1.cluster_id
            == d.clusters.len() + 1 && ingest_spec(d, content).0.clusters.len() == d.clusters.len()
            + 1,
        ingest_spec(d, content).2 != UpdateType::Created ==> ingest_spec(d, content).0.clusters.len()
            == d.clusters.len(),
{
    let tokens = tokenize_spec(content, d.extra_delimiters);
    lemma_match_id_valid(d, tokens, d.sim_num, d.sim_den);
    let m = crate::drain::drain_match_tokens(d, tokens, d.sim_num, d.sim_den);
    match m {
        Some(id) => {
            assert(1 <= id <= d.clusters.len());
            assert(d.clusters.update(id - 1, ingest_spec(d, content).1).len()
                == d.clusters.len());
            assert(ingest_spec(d, content).0.clusters.len() == d.clusters.len());
            assert(ingest_spec(d, content).2 != UpdateType::Created);
        },
        None => {
            assert(ingest_spec(d, content).0.clusters.len() == d.clusters.len() + 1);
            assert(ingest_spec(d, content).1.cluster_id == d.clusters.len() + 1);
            assert(ingest_spec(d, content).2 == UpdateType::Created);
        },
    }
}

/// Ingesting a whole sequence never removes clusters, and preserves
/// well-formedness.
pub proof fn lemma_ingest_all_grows(d: DrainModel, lines: Seq<Seq<char>>)
    requires
        model_wf(d),
    ensures
        ingest_all(d, lines).clusters.len() >= d.clusters.len(),
        model_wf(ingest_all(d, lines)),
    decreases lines.len(),
{
    if lines.len() > 0 {
        lemma_ingest_grows(d, lines[0]);
        lemma_ingest_preserves_wf(d, lines[0]);
        lemma_ingest_all_grows(ingest_spec(d, lines[0]).0, lines.drop_first());
    }
}

/// Monotonicity: across `Created` events the returned cluster identifiers
/// are strictly increasing, whatever is ingested in between, and the first
/// cluster of a fresh engine gets identifier 1.
pub proof fn lemma_created_ids_increase(
    d: DrainModel,
    c1: Seq<char>,
    mid: Seq<Seq<char>>,
    c2: Seq<char>,
)
    requires
        model_wf(d),
        ingest_spec(d, c1).2 == UpdateType::Created,
        ingest_spec(ingest_all(ingest_spec(d, c1).0, mid), c2).2 == UpdateType::Created,
    ensures
        ingest_spec(d, c1).1.cluster_id < ingest_spec(
            ingest_all(ingest_spec(d, c1).0, mid),
            c2,
        ).1.cluster_id,
        d.clusters.len() == 0 ==> ingest_spec(d, c1).1.cluster_id == 1,
{
    lemma_ingest_grows(d, c1);
    lemma_ingest_preserves_wf(d, c1);
    lemma_ingest_all_grows(ingest_spec(d, c1).0, mid);
    lemma_ingest_grows(ingest_all(ingest_spec(d, c1).0, mid), c2);
}

/// Each position of a generalized template either equals the observed token
/// or is a placeholder.
pub proof fn lemma_generalize_positions(
    templ: Seq<Seq<char>>,
    obs: Seq<Seq<char>>,
    prefix: Seq<char>,
    name: Seq<char>,
    suffix: Seq<char>,
    counter: int,
)
    ensures
        ({
            let g = generalize_tokens(templ, obs, prefix + name, prefix, name, suffix, counter);
            forall|i: int|
                0 <= i < g.0.len() ==> #[trigger] g.0[i] == obs[i] || is_wildcard_token(
                    prefix + name,
                    g.0[i],
                )
        }),
    decreases templ.len(),
{
    let check = prefix + name;
    let g = generalize_tokens(templ, obs, check, prefix, name, suffix, counter);
    crate::model::lemma_generalize_len(templ, obs, check, prefix, name, suffix, counter);
    if templ.len() > 0 && obs.len() > 0 {
        if obs[0] == templ[0] || is_wildcard_token(check, templ[0]) {
            lemma_generalize_positions(
                templ.drop_first(),
                obs.drop_first(),
                prefix,
                name,
                suffix,
                counter,
            );
            let rest = generalize_tokens(
                templ.drop_first(),
                obs.drop_first(),
                check,
                prefix,
                name,
                suffix,
                counter,
            );
            crate::model::lemma_generalize_len(
                templ.drop_first(),
                obs.drop_first(),
                check,
                prefix,
                name,
                suffix,
                counter,
            );
            assert forall|i: int| 0 <= i < g.0.len() implies #[trigger] g.0[i] == obs[i]
                || is_wildcard_token(check, g.0[i]) by {
                if i > 0 {
                    assert(g.0[i] == rest.0[i - 1]);
                    assert(obs.drop_first()[i - 1] == obs[i]);
                }
            }
        } else {
            lemma_mint_is_wildcard(prefix, name, sat_inc(counter), suffix);
            lemma_generalize_positions(
                templ.drop_first(),
                obs.drop_first(),
                prefix,
                name,
                suffix,
                sat_inc(counter),
            );
            let rest = generalize_tokens(
                templ.drop_first(),
                obs.drop_first(),
                check,
                prefix,
                name,
                suffix,
                sat_inc(counter),
            );
            crate::model::lemma_generalize_len(
                templ.drop_first(),
                obs.drop_first(),
                check,
                prefix,
                name,
                suffix,
                sat_inc(counter),
            );
            assert forall|i: int| 0 <= i < g.0.len() implies #[trigger] g.0[i] == obs[i]
                || is_wildcard_token(check, g.0[i]) by {
                if i > 0 {
                    assert(g.0[i] == rest.0[i - 1]);
                    assert(obs.drop_first()[i - 1] == obs[i]);
                }
            }
        }
    }
}

/// Stability: the cluster an ingest returns has exactly as many tokens as
/// the ingested line, and each of its positions either equals the line's
/// token there or is a placeholder. The ingested line is stored at its
/// identifier's slot in the new state.
pub proof fn lemma_template_stability(d: DrainModel, content: Seq<char>)
    requires
        model_wf(d),
    ensures
        ({
            let tokens = tokenize_spec(content, d.extra_delimiters);
            let c = ingest_spec(d, content).1;
            &&& c.tokens.len() == tokens.len()
            &&& forall|i: int|
                0 <= i < tokens.len() ==> #[trigger] c.tokens[i] == tokens[i] || is_wildcard_token(
                    d.check(),
                    c.tokens[i],
                )
            &&& ingest_spec(d, content).0.clusters[c.cluster_id - 1] == c
            &&& 1 <= c.cluster_id <= ingest_spec(d, content).0.clusters.len()
        }),
{
    let tokens = tokenize_spec(content, d.extra_delimiters);
    lemma_match_id_valid(d, tokens, d.sim_num, d.sim_den);
    match crate::drain::drain_match_tokens(d, tokens, d.sim_num, d.sim_den) {
        Some(id) => {
            let c = d.clusters[id - 1];
            crate::model::lemma_generalize_len(
                c.tokens,
                tokens,
                d.check(),
                d.prefix,
                d.name,
                d.suffix,
                d.mint_counter,
            );
            lemma_generalize_positions(
                c.tokens,
                tokens,
                d.prefix,
                d.name,
                d.suffix,
                d.mint_counter,
            );
        },
        None => {},
    }
}

/// Length partitioning: two ingested lines with different token counts
/// never map to the same cluster.
pub proof fn lemma_length_partitioning(d: DrainModel, c1: Seq<char>, c2: Seq<char>)
    requires
        model_wf(d),
        tokenize_spec(c1, d.extra_delimiters).len() != tokenize_spec(
            c2,
            d.extra_delimiters,
        ).len(),
    ensures
        ingest_spec(d, c1).1.cluster_id != ingest_spec(
            ingest_spec(d, c1).0,
            c2,
        ).1.cluster_id,
{
    let d1 = ingest_spec(d, c1).0;
    let cl1 = ingest_spec(d, c1).1;
    let cl2 = ingest_spec(d1, c2).1;
    lemma_template_stability(d, c1);
    lemma_ingest_preserves_wf(d, c1);
    lemma_template_stability(d1, c2);
    assert(d1.extra_delimiters == d.extra_delimiters);
    if cl1.cluster_id == cl2.cluster_id {
        let tokens2 = tokenize_spec(c2, d.extra_delimiters);
        lemma_match_id_valid(d1, tokens2, d1.sim_num, d1.sim_den);
        match crate::drain::drain_match_tokens(d1, tokens2, d1.sim_num, d1.sim_den) {
            Some(id) => {
                assert(d1.clusters[id - 1].tokens.len() == tokens2.len());
                assert(d1.clusters[cl1.cluster_id - 1] == cl1);
            },
            None => {
                assert(cl2.cluster_id == d1.clusters.len() + 1);
                assert(cl1.cluster_id <= d1.clusters.len());
            },
        }
    }
}


/// A kept literal is witnessed by every side: a position of a generalized
/// template that is not a placeholder carries both the observed token and
/// the previous template's token there.
pub proof fn lemma_generalize_keeps_literals(
    templ: Seq<Seq<char>>,
    obs: Seq<Seq<char>>,
    prefix: Seq<char>,
    name: Seq<char>,
    suffix: Seq<char>,
    counter: int,
)
    ensures
        ({
            let g = generalize_tokens(templ, obs, prefix + name, prefix, name, suffix, counter);
            forall|i: int|
                0 <= i < g.0.len() && !is_wildcard_token(prefix + name, #[trigger] g.0[i])
                    ==> g.0[i] == obs[i] && g.0[i] == templ[i]
        }),
    decreases templ.len(),
{
    let check = prefix + name;
    let g = generalize_tokens(templ, obs, check, prefix, name, suffix, counter);
    crate::model::lemma_generalize_len(templ, obs, check, prefix, name, suffix, counter);
    if templ.len() > 0 && obs.len() > 0 {
        if obs[0] == templ[0] || is_wildcard_token(check, templ[0]) {
            lemma_generalize_keeps_literals(
                templ.drop_first(),
                obs.drop_first(),
                prefix,
                name,
                suffix,
                counter,
            );
            let rest = generalize_tokens(
                templ.drop_first(),
                obs.drop_first(),
                check,
                prefix,
                name,
                suffix,
                counter,
            );
            assert forall|i: int|
                0 <= i < g.0.len() && !is_wildcard_token(check, #[trigger] g.0[i]) implies g.0[i]
                == obs[i] && g.0[i] == templ[i] by {
                if i > 0 {
                    assert(g.0[i] == rest.0[i - 1]);
                    assert(obs.drop_first()[i - 1] == obs[i]);
                    assert(templ.drop_first()[i - 1] == templ[i]);
                }
            }
        } else {
            lemma_mint_is_wildcard(prefix, name, sat_inc(counter), suffix);
            lemma_generalize_keeps_literals(
                templ.drop_first(),
                obs.drop_first(),
                prefix,
                name,
                suffix,
                sat_inc(counter),
            );
            let rest = generalize_tokens(
                templ.drop_first(),
                obs.drop_first(),
                check,
                prefix,
                name,
                suffix,
                sat_inc(counter),
            );
            assert forall|i: int|
                0 <= i < g.0.len() && !is_wildcard_token(check, #[trigger] g.0[i]) implies g.0[i]
                == obs[i] && g.0[i] == templ[i] by {
                if i > 0 {
                    assert(g.0[i] == rest.0[i - 1]);
                    assert(obs.drop_first()[i - 1] == obs[i]);
                    assert(templ.drop_first()[i - 1] == templ[i]);
                }
            }
        }
    }
}

/// The literal positions of a template are common to every line the
/// cluster has absorbed: a non-placeholder position of the cluster an
/// ingest returns equals the ingested line's token there, and on a match it
/// also equals the previous template's token, so literals only ever shrink
/// to placeholders and are never rewritten.
pub proof fn lemma_literal_positions_absorbed(d: DrainModel, content: Seq<char>)
    requires
        model_wf(d),
    ensures
        ({
            let tokens = tokenize_spec(content, d.extra_delimiters);
            let c = ingest_spec(d, content).1;
            forall|i: int|
                0 <= i < c.tokens.len() && !is_wildcard_token(d.check(), #[trigger] c.tokens[i])
                    ==> c.tokens[i] == tokens[i]
        }),
        ({
            let tokens = tokenize_spec(content, d.extra_delimiters);
            let c = ingest_spec(d, content).1;
            match drain_match_tokens(d, tokens, d.sim_num, d.sim_den) {
                Some(id) => forall|i: int|
                    0 <= i < c.tokens.len() && !is_wildcard_token(
                        d.check(),
                        #[trigger] c.tokens[i],
                    ) ==> c.tokens[i] == d.clusters[id - 1].tokens[i],
                None => true,
            }
        }),
{
    let tokens = tokenize_spec(content, d.extra_delimiters);
    lemma_match_id_valid(d, tokens, d.sim_num, d.sim_den);
    match drain_match_tokens(d, tokens, d.sim_num, d.sim_den) {
        Some(id) => {
            let templ = d.clusters[id - 1].tokens;
            lemma_generalize_keeps_literals(
                templ,
                tokens,
                d.prefix,
                d.name,
                d.suffix,
                d.mint_counter,
            );
        },
        None => {},
    }
}

/// Idempotence on match: the cluster an ingest returns is exactly what a
/// read-only lookup of the same line finds immediately afterwards, under
/// the `Fast` strategy and therefore under `Fallback` too.
pub proof fn lemma_match_after_ingest(d: DrainModel, content: Seq<char>)
    requires
        model_wf(d),
    ensures
        match_spec(ingest_spec(d, content).0, content, SearchStrategy::Fast) == Some(
            ingest_spec(d, content).1.cluster_id,
        ),
        match_spec(ingest_spec(d, content).0, content, SearchStrategy::Fallback) == Some(
            ingest_spec(d, content).1.cluster_id,
        ),
{
    let tokens = tokenize_spec(content, d.extra_delimiters);
    let d2 = ingest_spec(d, content).0;
    let c = ingest_spec(d, content).1;
    let check = d.check();
    let den = sim_den_of(tokens);
    assert(d2.extra_delimiters == d.extra_delimiters);
    assert(d2.check() == check);
    lemma_match_id_valid(d, tokens, d.sim_num, d.sim_den);
    let m = drain_match_tokens(d, tokens, d.sim_num, d.sim_den);
    let pi = find_partition_idx(d.partitions, tokens.len() as int);
    lemma_find_partition_idx(d.partitions, tokens.len() as int);
    match m {
        Some(id) => {
            assert(d2.partitions == d.partitions);
            let pnode = d.partitions[pi].1;
            let templ = d.clusters[id - 1].tokens;
            assert(templ.len() == tokens.len());
            let g = generalize_tokens(
                templ,
                tokens,
                check,
                d.prefix,
                d.name,
                d.suffix,
                d.mint_counter,
            );
            assert(c.cluster_id == id);
            assert(c.tokens == g.0);
            assert(d2.clusters == d.clusters.update(id - 1, c));
            if tokens.len() == 0 {
                assert(drain_match_tokens(d2, tokens, 1, 1) == Some(id));
            } else {
                match node_search(pnode, tokens, 0, d.depth - 2) {
                    Some(leaf) => {
                        crate::model::lemma_generalize_len(
                            templ,
                            tokens,
                            check,
                            d.prefix,
                            d.name,
                            d.suffix,
                            d.mint_counter,
                        );
                        lemma_generalize_positions(
                            templ,
                            tokens,
                            d.prefix,
                            d.name,
                            d.suffix,
                            d.mint_counter,
                        );
                        lemma_full_sim(g.0, tokens, check);
                        lemma_generalize_params_grow(
                            templ,
                            tokens,
                            check,
                            d.prefix,
                            d.name,
                            d.suffix,
                            d.mint_counter,
                        );
                        assert(sim_num_of(d2.clusters[id - 1].tokens, tokens, check, true) == den);
                        assert(param_count_of(d2.clusters[id - 1].tokens, tokens, check)
                            >= param_count_of(d.clusters[id - 1].tokens, tokens, check));
                        lemma_fold_upgrade(
                            leaf.cluster_ids,
                            d.clusters,
                            d2.clusters,
                            tokens,
                            check,
                            id,
                            None,
                            None,
                        );
                        let b1 = best_match_from(
                            leaf.cluster_ids,
                            d.clusters,
                            tokens,
                            check,
                            true,
                            None,
                        );
                        let b2 = best_match_from(
                            leaf.cluster_ids,
                            d2.clusters,
                            tokens,
                            check,
                            true,
                            None,
                        );
                        match b1 {
                            Some(bb1) => {
                                assert(bb1.0 == id);
                                match b2 {
                                    Some(bb2) => {
                                        assert(bb2.0 == id);
                                        assert(bb2.1 == den);
                                        assert(bb2.1 * 1 >= 1 * den);
                                    },
                                    None => {
                                        assert(false);
                                    },
                                }
                            },
                            None => {
                                assert(false);
                            },
                        }
                        assert(drain_match_tokens(d2, tokens, 1, 1) == Some(id));
                    },
                    None => {
                        assert(false);
                    },
                }
            }
        },
        None => {
            let id = d.clusters.len() as int + 1;
            assert(c.cluster_id == id);
            assert(c.tokens == tokens);
            assert(d2.clusters == d.clusters.push(c));
            assert(d2.clusters[id - 1] == c);
            assert(forall|i: int| 0 <= i < tokens.len() ==> #[trigger] tokens[i] == tokens[i]);
            lemma_full_sim(tokens, tokens, check);
            let mnd = d.depth - 2;
            let pc_new = param_count_of(tokens, tokens, check);
            if pi == -1 {
                let inserted = node_insert(
                    empty_node(),
                    tokens,
                    0,
                    mnd,
                    d.max_children,
                    d.parametrize_numeric,
                    id,
                );
                assert(d2.partitions == d.partitions.push((tokens.len() as int, inserted)));
                assert(forall|j: int|
                    0 <= j < d.partitions.len() ==> (#[trigger] d2.partitions[j]).0
                        == d.partitions[j].0 && d.partitions[j].0 != tokens.len() as int);
                lemma_find_partition_first(
                    d2.partitions,
                    tokens.len() as int,
                    d.partitions.len() as int,
                );
                if tokens.len() == 0 {
                    assert(inserted.cluster_ids == Seq::<int>::empty().push(id));
                    assert(inserted.cluster_ids[0] == id);
                } else {
                    lemma_fresh_insert_search(
                        tokens,
                        0,
                        mnd,
                        d.max_children,
                        d.parametrize_numeric,
                        id,
                    );
                    match node_search(inserted, tokens, 0, mnd) {
                        Some(leaf2) => {
                            lemma_fold_single(d2.clusters, tokens, check, id, None);
                            assert(leaf2.cluster_ids == seq![id]);
                            assert(best_match_from(
                                leaf2.cluster_ids,
                                d2.clusters,
                                tokens,
                                check,
                                true,
                                None,
                            ) == Some((id, den, pc_new)));
                            assert(den * 1 >= 1 * den);
                        },
                        None => {
                            assert(false);
                        },
                    }
                }
            } else {
                let pnode = d.partitions[pi].1;
                let inserted = node_insert(
                    pnode,
                    tokens,
                    0,
                    mnd,
                    d.max_children,
                    d.parametrize_numeric,
                    id,
                );
                assert(d2.partitions == d.partitions.update(
                    pi,
                    (d.partitions[pi].0, inserted),
                ));
                lemma_find_partition_prefix(d.partitions, tokens.len() as int);
                assert(forall|j: int|
                    0 <= j < pi ==> (#[trigger] d2.partitions[j]).0 == d.partitions[j].0
                        && d.partitions[j].0 != tokens.len() as int);
                lemma_find_partition_first(d2.partitions, tokens.len() as int, pi);
                if tokens.len() == 0 {
                    assert(pnode.cluster_ids.len() == 0);
                    assert(inserted.cluster_ids == pnode.cluster_ids.push(id));
                    assert(inserted.cluster_ids[0] == id);
                } else {
                    lemma_search_after_insert(
                        pnode,
                        tokens,
                        0,
                        mnd,
                        d.max_children,
                        d.parametrize_numeric,
                        id,
                    );
                    match node_search(inserted, tokens, 0, mnd) {
                        Some(leaf2) => {
                            match node_search(pnode, tokens, 0, mnd) {
                                Some(leaf1) => {
                                    if leaf2.cluster_ids == leaf1.cluster_ids.push(id) {
                                        lemma_search_leaf_ids(pnode, tokens, 0, mnd);
                                        assert(partition_ok(d.partitions[pi], d.clusters));
                                        assert forall|j: int|
                                            0 <= j < leaf1.cluster_ids.len() implies 1 <= (
                                        #[trigger] leaf1.cluster_ids[j]) <= d.clusters.len()
                                            && leaf1.cluster_ids[j] <= d2.clusters.len()
                                            && d2.clusters[leaf1.cluster_ids[j] - 1]
                                            == d.clusters[leaf1.cluster_ids[j] - 1] by {
                                            assert(leaf1.cluster_ids.contains(
                                                leaf1.cluster_ids[j],
                                            ));
                                            assert(tree_ids(pnode).contains(
                                                leaf1.cluster_ids[j],
                                            ));
                                        }
                                        lemma_fold_agree(
                                            leaf1.cluster_ids,
                                            d.clusters,
                                            d2.clusters,
                                            tokens,
                                            check,
                                            true,
                                            None,
                                        );
                                        lemma_fold_concat(
                                            leaf1.cluster_ids,
                                            seq![id],
                                            d2.clusters,
                                            tokens,
                                            check,
                                            true,
                                            None,
                                        );
                                        assert(leaf1.cluster_ids + seq![id]
                                            =~= leaf1.cluster_ids.push(id));
                                        let acc_l = best_match_from(
                                            leaf1.cluster_ids,
                                            d.clusters,
                                            tokens,
                                            check,
                                            true,
                                            None,
                                        );
                                        match acc_l {
                                            None => {
                                                lemma_fold_single(
                                                    d2.clusters,
                                                    tokens,
                                                    check,
                                                    id,
                                                    None,
                                                );
                                            },
                                            Some(bb) => {
                                                assert(!(bb.1 * d.sim_den >= d.sim_num * den));
                                                assert(bb.1 < den) by (nonlinear_arith)
                                                    requires
                                                        bb.1 * d.sim_den < d.sim_num * den,
                                                        d.sim_num <= d.sim_den,
                                                        0 < d.sim_den,
                                                        0 <= den,
                                                ;
                                                lemma_fold_single(
                                                    d2.clusters,
                                                    tokens,
                                                    check,
                                                    id,
                                                    Some(bb),
                                                );
                                            },
                                        }
                                        assert(best_match_from(
                                            leaf2.cluster_ids,
                                            d2.clusters,
                                            tokens,
                                            check,
                                            true,
                                            None,
                                        ) == Some((id, den, pc_new)));
                                        assert(den * 1 >= 1 * den);
                                    } else {
                                        assert(leaf2.cluster_ids == seq![id]);
                                        lemma_fold_single(d2.clusters, tokens, check, id, None);
                                        assert(den * 1 >= 1 * den);
                                    }
                                },
                                None => {
                                    assert(leaf2.cluster_ids == seq![id]);
                                    lemma_fold_single(d2.clusters, tokens, check, id, None);
                                    assert(den * 1 >= 1 * den);
                                },
                            }
                        },
                        None => {
                            assert(false);
                        },
                    }
                }
            }
            assert(drain_match_tokens(d2, tokens, 1, 1) == Some(id));
        },
    }
    assert(match_spec(d2, content, SearchStrategy::Fast) == Some(c.cluster_id));
    assert(match_spec(d2, content, SearchStrategy::Fallback) == Some(c.cluster_id));
}

} // verus!
