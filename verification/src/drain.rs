//! The online clustering engine: tokenization, prefix-tree search,
//! similarity scoring and template generalization, together with the ghost
//! model of a whole engine state and of one ingest step.

use vstd::prelude::*;
use crate::cluster::LogCluster;
use crate::cluster::Node;
use crate::cluster::SearchStrategy;
use crate::cluster::TokenScheme;
use crate::cluster::UpdateType;
use crate::cluster::children_models;
use crate::cluster::clone_tokens;
use crate::cluster::node_model;
use crate::model::ClusterModel;
use crate::model::NodeModel;
use crate::model::best_match_from;
use crate::model::empty_node;
use crate::model::fast_match_spec;
use crate::model::find_partition_idx;
use crate::model::generalize_tokens;
use crate::model::lemma_best_match_member;
use crate::model::lemma_find_partition_first;
use crate::model::lemma_find_partition_idx;
use crate::model::lemma_find_partition_prefix;
use crate::model::lemma_generalize_len;
use crate::model::lemma_insert_ids_fresh;
use crate::model::is_wildcard_token;
use crate::model::lemma_full_sim;
use crate::model::lemma_full_sim_conv;
use crate::model::lemma_fold_winner;
use crate::model::lemma_search_leaf_ids;
use crate::model::lemma_sim_num_bounded;
use crate::model::lemma_tree_ids_empty;
use crate::model::score_beats;
use crate::model::node_insert;
use crate::model::node_search;
use crate::model::param_count_of;
use crate::model::sat_inc;
use crate::model::sim_counts;
use crate::model::sim_den_of;
use crate::model::sim_num_of;
use crate::model::tree_ids;
use crate::model::children_ids_from;
use crate::text::str_starts_with;
use crate::text::tokenize_content;
use crate::text::tokenize_spec;

verus! {

/// The ghost state of the engine: configuration, the length-partitioned
/// prefix tree, the cluster table (cluster `i + 1` lives at index `i`) and
/// the placeholder mint counter.
pub ghost struct DrainModel {
    pub depth: int,
    pub sim_num: int,
    pub sim_den: int,
    pub max_children: int,
    pub extra_delimiters: Seq<Seq<char>>,
    pub parametrize_numeric: bool,
    pub partitions: Seq<(int, NodeModel)>,
    pub clusters: Seq<ClusterModel>,
    pub mint_counter: int,
    pub prefix: Seq<char>,
    pub name: Seq<char>,
    pub suffix: Seq<char>,
}

impl DrainModel {
    /// The string that classifies a token as a placeholder.
    pub open spec fn check(self) -> Seq<char> {
        self.prefix + self.name
    }
}

/// Every identifier reachable under a length partition names a cluster of
/// the table whose template has exactly that many tokens.
pub open spec fn partition_ok(p: (int, NodeModel), clusters: Seq<ClusterModel>) -> bool {
    forall|x: int|
        #[trigger] tree_ids(p.1).contains(x) ==> 1 <= x <= clusters.len() && clusters[x
            - 1].tokens.len() == p.0
}

/// Every active cluster is filed under the partition of its length: the
/// partition for its token count exists and its tree reaches the
/// identifier.
pub open spec fn cluster_reachable(d: DrainModel, id: int) -> bool {
    let pi = find_partition_idx(d.partitions, d.clusters[id - 1].tokens.len() as int);
    &&& pi != -1
    &&& tree_ids(d.partitions[pi].1).contains(id)
}

/// Well-formedness of an engine state: a sane configuration, the cluster
/// table indexed by identifier, unique partition keys, clusters filed under
/// the partition of their length, every active identifier reachable there,
/// and no identifier reachable twice. (Partition keys are unique and every
/// reachable identifier has its partition's length, so an identifier is
/// also never reachable under two partitions.)
pub open spec fn model_wf(d: DrainModel) -> bool {
    &&& d.depth >= 3
    &&& 0 < d.sim_den
    &&& 0 <= d.sim_num <= d.sim_den
    &&& 0 <= d.mint_counter
    &&& forall|i: int|
        0 <= i < d.clusters.len() ==> (#[trigger] d.clusters[i]).cluster_id == i + 1
    &&& forall|i: int, j: int|
        0 <= i < j < d.partitions.len() ==> d.partitions[i].0 != d.partitions[j].0
    &&& forall|i: int|
        0 <= i < d.partitions.len() ==> partition_ok(#[trigger] d.partitions[i], d.clusters)
    &&& forall|id: int| 1 <= id <= d.clusters.len() ==> #[trigger] cluster_reachable(d, id)
    &&& forall|i: int|
        0 <= i < d.partitions.len() ==> tree_ids(
            (#[trigger] d.partitions[i]).1,
        ).no_duplicates()
}

/// The identifier of the best cluster for `tokens`, found by descending the
/// partition of `tokens.len()` and scoring the candidate list at the node
/// reached. The empty token sequence matches the first cluster of its
/// partition directly.
pub open spec fn drain_match_tokens(
    d: DrainModel,
    tokens: Seq<Seq<char>>,
    th_num: int,
    th_den: int,
) -> Option<int> {
    let pi = find_partition_idx(d.partitions, tokens.len() as int);
    if pi == -1 {
        None
    } else {
        let pnode = d.partitions[pi].1;
        if tokens.len() == 0 {
            if pnode.cluster_ids.len() > 0 {
                Some(pnode.cluster_ids[0])
            } else {
                None
            }
        } else {
            match node_search(pnode, tokens, 0, d.depth - 2) {
                None => None,
                Some(leaf) => fast_match_spec(
                    leaf.cluster_ids,
                    d.clusters,
                    tokens,
                    d.check(),
                    true,
                    th_num,
                    th_den,
                ),
            }
        }
    }
}

/// A matched identifier names a cluster of the table whose template length
/// is the token count searched for.
pub proof fn lemma_match_id_valid(d: DrainModel, tokens: Seq<Seq<char>>, th_num: int, th_den: int)
    requires
        model_wf(d),
    ensures
        match drain_match_tokens(d, tokens, th_num, th_den) {
            Some(id) => 1 <= id <= d.clusters.len() && d.clusters[id - 1].cluster_id == id
                && d.clusters[id - 1].tokens.len() == tokens.len(),
            None => true,
        },
{
    let pi = find_partition_idx(d.partitions, tokens.len() as int);
    lemma_find_partition_idx(d.partitions, tokens.len() as int);
    if pi != -1 {
        let pnode = d.partitions[pi].1;
        if tokens.len() == 0 {
            if pnode.cluster_ids.len() > 0 {
                let id = pnode.cluster_ids[0];
                assert(tree_ids(pnode)[0] == id);
                assert(tree_ids(pnode).contains(id));
            }
        } else {
            match node_search(pnode, tokens, 0, d.depth - 2) {
                None => {},
                Some(leaf) => {
                    lemma_search_leaf_ids(pnode, tokens, 0, d.depth - 2);
                    lemma_best_match_member(
                        leaf.cluster_ids,
                        d.clusters,
                        tokens,
                        d.check(),
                        true,
                        None,
                    );
                    match best_match_from(
                        leaf.cluster_ids,
                        d.clusters,
                        tokens,
                        d.check(),
                        true,
                        None,
                    ) {
                        Some(b) => {
                            assert(leaf.cluster_ids.contains(b.0));
                        },
                        None => {},
                    }
                },
            }
        }
    }
}

/// The partition forest after a new cluster is filed: the tree of the
/// matching length partition grows, or a fresh partition is appended.
pub open spec fn insert_partition(
    parts: Seq<(int, NodeModel)>,
    tokens: Seq<Seq<char>>,
    max_node_depth: int,
    max_children: int,
    param_numeric: bool,
    id: int,
) -> Seq<(int, NodeModel)> {
    let pi = find_partition_idx(parts, tokens.len() as int);
    if pi == -1 {
        parts.push(
            (
                tokens.len() as int,
                node_insert(empty_node(), tokens, 0, max_node_depth, max_children, param_numeric, id),
            ),
        )
    } else {
        parts.update(
            pi,
            (
                parts[pi].0,
                node_insert(
                    parts[pi].1,
                    tokens,
                    0,
                    max_node_depth,
                    max_children,
                    param_numeric,
                    id,
                ),
            ),
        )
    }
}

/// One ingest step over the model: the line is tokenized and matched; a
/// match generalizes the matched cluster's template (`Updated` when it
/// changed, `Unchanged` otherwise, and always a size increment), a miss
/// mints the next identifier and files a fresh cluster in the tree. Returns
/// the new state, the cluster returned to the caller, and the update kind.
pub open spec fn ingest_spec(d: DrainModel, content: Seq<char>) -> (DrainModel, ClusterModel, UpdateType) {
    let tokens = tokenize_spec(content, d.extra_delimiters);
    match drain_match_tokens(d, tokens, d.sim_num, d.sim_den) {
        Some(id) => {
            let c = d.clusters[id - 1];
            if tokens.len() == c.tokens.len() {
                let g = generalize_tokens(
                    c.tokens,
                    tokens,
                    d.check(),
                    d.prefix,
                    d.name,
                    d.suffix,
                    d.mint_counter,
                );
                let newc = ClusterModel {
                    tokens: g.0,
                    cluster_id: c.cluster_id,
                    size: sat_inc(c.size),
                };
                let kind = if g.0 == c.tokens {
                    UpdateType::Unchanged
                } else {
                    UpdateType::Updated
                };
                (
                    DrainModel {
                        clusters: d.clusters.update(id - 1, newc),
                        mint_counter: g.1,
                        ..d
                    },
                    newc,
                    kind,
                )
            } else {
                let newc = ClusterModel {
                    tokens: c.tokens,
                    cluster_id: c.cluster_id,
                    size: sat_inc(c.size),
                };
                (
                    DrainModel { clusters: d.clusters.update(id - 1, newc), ..d },
                    newc,
                    UpdateType::Unchanged,
                )
            }
        },
        None => {
            let id = d.clusters.len() as int + 1;
            let newc = ClusterModel { tokens: tokens, cluster_id: id, size: 1 };
            (
                DrainModel {
                    clusters: d.clusters.push(newc),
                    partitions: insert_partition(
                        d.partitions,
                        tokens,
                        d.depth - 2,
                        d.max_children,
                        d.parametrize_numeric,
                        id,
                    ),
                    ..d
                },
                newc,
                UpdateType::Created,
            )
        },
    }
}

/// Full scan: every cluster filed anywhere under the length partition is a
/// candidate, in traversal order.
pub open spec fn full_search_spec(d: DrainModel, tokens: Seq<Seq<char>>) -> Option<int> {
    let pi = find_partition_idx(d.partitions, tokens.len() as int);
    let ids = if pi == -1 {
        Seq::<int>::empty()
    } else {
        tree_ids(d.partitions[pi].1)
    };
    fast_match_spec(ids, d.clusters, tokens, d.check(), true, 1, 1)
}

/// A read-only lookup: the matched cluster must agree on every position
/// (similarity 1), found by tree descent (`Fast`), by scanning the whole
/// length partition (`Full`), or by the first falling back to the second
/// (`Fallback`).
pub open spec fn match_spec(d: DrainModel, content: Seq<char>, strategy: SearchStrategy) -> Option<
    int,
> {
    let tokens = tokenize_spec(content, d.extra_delimiters);
    match strategy {
        SearchStrategy::Fast => drain_match_tokens(d, tokens, 1, 1),
        SearchStrategy::Full => full_search_spec(d, tokens),
        SearchStrategy::Fallback => match drain_match_tokens(d, tokens, 1, 1) {
            Some(id) => Some(id),
            None => full_search_spec(d, tokens),
        },
    }
}

/// The cluster table as ghost records.
pub open spec fn clusters_model(s: Seq<LogCluster>) -> Seq<ClusterModel> {
    Seq::new(s.len(), |i: int| s[i]@)
}

/// The partition forest as ghost records.
pub open spec fn partitions_model(s: Seq<(usize, Node)>) -> Seq<(int, NodeModel)> {
    Seq::new(s.len(), |i: int| (s[i].0 as int, node_model(s[i].1)))
}

/// The identifier list as ghost integers.
pub open spec fn ids_model(s: Seq<usize>) -> Seq<int> {
    Seq::new(s.len(), |i: int| s[i] as int)
}

/// The online clustering engine.
pub struct Drain {
    pub log_cluster_depth: usize,
    pub sim_th_num: u64,
    pub sim_th_den: u64,
    pub max_children: usize,
    pub max_clusters: Option<usize>,
    pub extra_delimiters: Vec<String>,
    pub parametrize_numeric_tokens: bool,
    pub partitions: Vec<(usize, Node)>,
    pub clusters: Vec<LogCluster>,
    pub scheme: TokenScheme,
    pub token_template_counter: usize,
}

impl View for Drain {
    type V = DrainModel;

    open spec fn view(&self) -> DrainModel {
        DrainModel {
            depth: self.log_cluster_depth as int,
            sim_num: self.sim_th_num as int,
            sim_den: self.sim_th_den as int,
            max_children: self.max_children as int,
            extra_delimiters: self.extra_delimiters.deep_view(),
            parametrize_numeric: self.parametrize_numeric_tokens,
            partitions: partitions_model(self.partitions@),
            clusters: clusters_model(self.clusters@),
            mint_counter: self.token_template_counter as int,
            prefix: self.scheme.prefix@,
            name: self.scheme.name@,
            suffix: self.scheme.suffix@,
        }
    }
}

impl Drain {
    pub open spec fn wf(self) -> bool {
        &&& self.scheme.wf()
        &&& model_wf(self@)
    }

    /// A fresh engine. The similarity threshold is the rational
    /// `sim_th_num / sim_th_den`; an empty `token_template` falls back to
    /// the default placeholder name.
    pub fn new(
        depth: usize,
        sim_th_num: u64,
        sim_th_den: u64,
        max_children: usize,
        max_clusters: Option<usize>,
        extra_delimiters: Vec<String>,
        parametrize_numeric_tokens: bool,
        token_template: &str,
        token_prefix: &str,
        token_suffix: &str,
    ) -> (d: Self)
        requires
            depth >= 3,
            0 < sim_th_den,
            sim_th_num <= sim_th_den,
        ensures
            d.wf(),
            d@.depth == depth as int,
            d@.sim_num == sim_th_num as int,
            d@.sim_den == sim_th_den as int,
            d@.max_children == max_children as int,
            d@.extra_delimiters == extra_delimiters.deep_view(),
            d@.parametrize_numeric == parametrize_numeric_tokens,
            d@.partitions == Seq::<(int, NodeModel)>::empty(),
            d@.clusters == Seq::<ClusterModel>::empty(),
            d@.mint_counter == 0,
            d@.prefix == token_prefix@,
            d@.suffix == token_suffix@,
            d@.name == (if token_template@.len() == 0 {
                "TOKEN"@
            } else {
                token_template@
            }),
    {
        let name: &str = if token_template.is_empty() {
            "TOKEN"
        } else {
            token_template
        };
        let scheme = TokenScheme::new(token_prefix, name, token_suffix);
        let d = Drain {
            log_cluster_depth: depth,
            sim_th_num,
            sim_th_den,
            max_children,
            max_clusters,
            extra_delimiters,
            parametrize_numeric_tokens,
            partitions: Vec::new(),
            clusters: Vec::new(),
            scheme,
            token_template_counter: 0,
        };
        proof {
            assert(d@.partitions =~= Seq::<(int, NodeModel)>::empty());
            assert(d@.clusters =~= Seq::<ClusterModel>::empty());
        }
        d
    }

    /// The tokens of a raw line under this engine's extra delimiters.
    pub fn get_content_as_tokens(&self, content: &str) -> (r: Vec<String>)
        ensures
            r.deep_view() == tokenize_spec(content@, self@.extra_delimiters),
    {
        tokenize_content(content, &self.extra_delimiters)
    }

    /// Similarity counts of a candidate template against observed tokens:
    /// the numerator over `sim_den_of` and the placeholder count.
    fn get_seq_distance(
        seq1: &Vec<String>,
        seq2: &Vec<String>,
        check: &String,
        include_params: bool,
    ) -> (r: (usize, usize))
        ensures
            r.0 as int == sim_num_of(seq1.deep_view(), seq2.deep_view(), check@, include_params),
            r.1 as int == param_count_of(seq1.deep_view(), seq2.deep_view(), check@),
    {
        let ghost t = seq1.deep_view();
        let ghost o = seq2.deep_view();
        if seq1.len() != seq2.len() {
            return (0, 0);
        }
        if seq1.len() == 0 {
            return (1, 0);
        }
        let n = seq1.len();
        let mut sim_tokens: usize = 0;
        let mut param_count: usize = 0;
        let mut i: usize = 0;
        proof {
            assert(t.skip(0) =~= t);
            assert(o.skip(0) =~= o);
        }
        while i < n
            invariant
                i <= n,
                n == t.len(),
                n == o.len(),
                n == seq1@.len(),
                n == seq2@.len(),
                t == seq1.deep_view(),
                o == seq2.deep_view(),
                sim_tokens + param_count <= i,
                sim_counts(t, o, check@).0 == sim_tokens + sim_counts(
                    t.skip(i as int),
                    o.skip(i as int),
                    check@,
                ).0,
                sim_counts(t, o, check@).1 == param_count + sim_counts(
                    t.skip(i as int),
                    o.skip(i as int),
                    check@,
                ).1,
            decreases n - i,
        {
            proof {
                assert(t.skip(i as int)[0] == t[i as int]);
                assert(o.skip(i as int)[0] == o[i as int]);
                assert(t.skip(i as int).drop_first() =~= t.skip(i as int + 1));
                assert(o.skip(i as int).drop_first() =~= o.skip(i as int + 1));
                assert(seq1@[i as int]@ == t[i as int]);
                assert(seq2@[i as int]@ == o[i as int]);
            }
            if str_starts_with(seq1[i].as_str(), check.as_str()) {
                param_count = param_count + 1;
            } else if seq1[i] == seq2[i] {
                sim_tokens = sim_tokens + 1;
            }
            i = i + 1;
        }
        proof {
            assert(t.skip(n as int) =~= Seq::<Seq<char>>::empty());
            assert(o.skip(n as int) =~= Seq::<Seq<char>>::empty());
        }
        if include_params {
            (sim_tokens + param_count, param_count)
        } else {
            (sim_tokens, param_count)
        }
    }

    /// The best-scoring candidate at or above the threshold
    /// `th_num / th_den`; ties go to the earlier candidate unless a later
    /// one has strictly more placeholder positions.
    fn fast_match(
        clusters: &Vec<LogCluster>,
        cluster_ids: &Vec<usize>,
        tokens: &Vec<String>,
        th_num: u64,
        th_den: u64,
        include_params: bool,
        check: &String,
    ) -> (r: Option<usize>)
        requires
            0 < th_den,
        ensures
            ({
                let res = fast_match_spec(
                    ids_model(cluster_ids@),
                    clusters_model(clusters@),
                    tokens.deep_view(),
                    check@,
                    include_params,
                    th_num as int,
                    th_den as int,
                );
                match r {
                    Some(id) => res == Some(id as int) && 1 <= id <= clusters@.len(),
                    None => res is None,
                }
            }),
    {
        let ghost idsm = ids_model(cluster_ids@);
        let ghost cm = clusters_model(clusters@);
        let ghost obs = tokens.deep_view();
        let mut best: Option<(usize, usize, usize)> = None;
        let ghost mut best_m: Option<(int, int, int)> = None;
        let mut i: usize = 0;
        proof {
            assert(idsm.skip(0) =~= idsm);
        }
        while i < cluster_ids.len()
            invariant
                i <= cluster_ids@.len(),
                idsm == ids_model(cluster_ids@),
                cm == clusters_model(clusters@),
                obs == tokens.deep_view(),
                best_m == (match best {
                    Some(b) => Some((b.0 as int, b.1 as int, b.2 as int)),
                    None => None::<(int, int, int)>,
                }),
                best matches Some(b) ==> 1 <= b.0 <= clusters@.len(),
                best_match_from(idsm, cm, obs, check@, include_params, None) == best_match_from(
                    idsm.skip(i as int),
                    cm,
                    obs,
                    check@,
                    include_params,
                    best_m,
                ),
            decreases cluster_ids@.len() - i,
        {
            let id = cluster_ids[i];
            proof {
                assert(idsm.skip(i as int)[0] == idsm[i as int]);
                assert(idsm[i as int] == id as int);
                assert(idsm.skip(i as int).drop_first() =~= idsm.skip(i as int + 1));
            }
            if 1 <= id && id <= clusters.len() {
                let c = &clusters[id - 1];
                proof {
                    assert(cm[id - 1] == clusters@[id - 1]@);
                }
                let (num, pc) = Self::get_seq_distance(&c.tokens, tokens, check, include_params);
                let replace = match &best {
                    None => true,
                    Some(b) => num > b.1 || (num == b.1 && pc > b.2),
                };
                if replace {
                    best = Some((id, num, pc));
                    proof {
                        best_m = Some((id as int, num as int, pc as int));
                    }
                }
            }
            i = i + 1;
        }
        proof {
            assert(idsm.skip(idsm.len() as int) =~= Seq::<int>::empty());
        }
        match best {
            None => None,
            Some(b) => {
                let den: u128 = if tokens.len() == 0 {
                    1
                } else {
                    tokens.len() as u128
                };
                proof {
                    assert(sim_den_of(obs) == den as int);
                    assert((b.1 as int) * (th_den as int) <= u128::MAX as int) by (nonlinear_arith)
                        requires
                            0 <= b.1 as int <= u64::MAX as int,
                            0 <= th_den as int <= u64::MAX as int,
                    ;
                    assert((th_num as int) * (den as int) <= u128::MAX as int) by (nonlinear_arith)
                        requires
                            0 <= th_num as int <= u64::MAX as int,
                            0 <= den as int <= u64::MAX as int,
                    ;
                }
                if (b.1 as u128) * (th_den as u128) >= (th_num as u128) * den {
                    Some(b.0)
                } else {
                    None
                }
            },
        }
    }

    /// Descends the tree for `tokens` and scores the candidates at the node
    /// reached, with the threshold `th_num / th_den`.
    fn tree_search(&self, tokens: &Vec<String>, th_num: u64, th_den: u64) -> (r: Option<usize>)
        requires
            self.wf(),
            0 < th_den,
        ensures
            ({
                let res = drain_match_tokens(
                    self@,
                    tokens.deep_view(),
                    th_num as int,
                    th_den as int,
                );
                match r {
                    Some(id) => res == Some(id as int) && 1 <= id <= self.clusters@.len(),
                    None => res is None,
                }
            }),
    {
        let ghost dv = tokens.deep_view();
        proof {
            assert(dv.len() == tokens@.len());
            lemma_match_id_valid(self@, dv, th_num as int, th_den as int);
        }
        match find_partition_pos(&self.partitions, tokens.len()) {
            None => None,
            Some(pi) => {
                let pnode = &self.partitions[pi].1;
                proof {
                    assert(self@.partitions[pi as int].1 == node_model(*pnode));
                }
                if tokens.len() == 0 {
                    pnode.first_cluster()
                } else {
                    match pnode.search(tokens, self.log_cluster_depth) {
                        None => None,
                        Some(leaf) => {
                            proof {
                                assert(ids_model(leaf.cluster_ids@) =~= node_model(
                                    *leaf,
                                ).cluster_ids);
                            }
                            Self::fast_match(
                                &self.clusters,
                                &leaf.cluster_ids,
                                tokens,
                                th_num,
                                th_den,
                                true,
                                &self.scheme.check,
                            )
                        },
                    }
                }
            },
        }
    }
}

impl Drain {
    /// Ingests one line: tokenizes it, matches it against the tree, and
    /// either generalizes the matched cluster's template or creates a fresh
    /// cluster with the next identifier. Returns a copy of the cluster and
    /// the update kind.
    pub fn add_log_message(&mut self, content: &str) -> (r: (LogCluster, UpdateType))
        requires
            old(self).wf(),
            old(self)@.clusters.len() < usize::MAX,
        ensures
            final(self).wf(),
            final(self)@ == ingest_spec(old(self)@, content@).0,
            r.0@ == ingest_spec(old(self)@, content@).1,
            r.1 == ingest_spec(old(self)@, content@).2,
    {
        let ghost d = old(self)@;
        let ghost outcome = ingest_spec(d, content@);
        proof {
            lemma_ingest_preserves_wf(d, content@);
        }
        let content_tokens = self.get_content_as_tokens(content);
        let ghost tokens = tokenize_spec(content@, d.extra_delimiters);
        let match_result = self.tree_search(&content_tokens, self.sim_th_num, self.sim_th_den);
        match match_result {
            Some(id) => {
                let counter = self.token_template_counter;
                let mut c = self.clusters.remove(id - 1);
                let (kind, new_counter) = c.update_template(
                    &content_tokens,
                    &self.scheme,
                    counter,
                );
                let ghost cf = c;
                self.clusters.insert(id - 1, c);
                self.token_template_counter = new_counter;
                let ret = self.clusters[id - 1].clone();
                proof {
                    assert(self.clusters@ =~= old(self).clusters@.update(id - 1, cf));
                    assert(clusters_model(self.clusters@) =~= d.clusters.update(id - 1, cf@));
                    assert(partitions_model(self.partitions@) == d.partitions);
                    assert(self@ == outcome.0);
                    assert(ret@ == outcome.1);
                }
                (ret, kind)
            },
            None => {
                let cluster_id = self.clusters.len() + 1;
                let cluster = LogCluster::new(&content_tokens, cluster_id);
                let ret = cluster.clone();
                let plen = content_tokens.len();
                match find_partition_pos(&self.partitions, plen) {
                    Some(k) => {
                        let (key, mut node) = self.partitions.remove(k);
                        node.add_cluster(cluster_id, &content_tokens, self.log_cluster_depth,
                            self.max_children, self.parametrize_numeric_tokens);
                        let ghost nf = node;
                        self.partitions.insert(k, (key, node));
                        proof {
                            assert(self.partitions@ =~= old(self).partitions@.update(
                                k as int,
                                (key, nf),
                            ));
                            assert(partitions_model(self.partitions@) =~= insert_partition(
                                d.partitions,
                                tokens,
                                d.depth - 2,
                                d.max_children,
                                d.parametrize_numeric,
                                cluster_id as int,
                            ));
                        }
                    },
                    None => {
                        let mut node = Node::new();
                        node.add_cluster(cluster_id, &content_tokens, self.log_cluster_depth,
                            self.max_children, self.parametrize_numeric_tokens);
                        let ghost nf = node;
                        self.partitions.push((plen, node));
                        proof {
                            assert(self.partitions@ =~= old(self).partitions@.push((plen, nf)));
                            assert(partitions_model(self.partitions@) =~= insert_partition(
                                d.partitions,
                                tokens,
                                d.depth - 2,
                                d.max_children,
                                d.parametrize_numeric,
                                cluster_id as int,
                            ));
                        }
                    },
                }
                let ghost clf = cluster;
                self.clusters.push(cluster);
                proof {
                    assert(self.clusters@ =~= old(self).clusters@.push(clf));
                    assert(clusters_model(self.clusters@) =~= d.clusters.push(clf@));
                    assert(self@ == outcome.0);
                    assert(ret@ == outcome.1);
                }
                (ret, UpdateType::Created)
            },
        }
    }

    /// Every cluster identifier filed under the length partition for
    /// `seq_len`, in traversal order.
    pub fn get_clusters_ids_for_seq_len(&self, seq_len: usize) -> (r: Vec<usize>)
        ensures
            ids_model(r@) == ({
                let pi = find_partition_idx(self@.partitions, seq_len as int);
                if pi == -1 {
                    Seq::<int>::empty()
                } else {
                    tree_ids(self@.partitions[pi].1)
                }
            }),
    {
        match find_partition_pos(&self.partitions, seq_len) {
            None => {
                let r: Vec<usize> = Vec::new();
                proof {
                    assert(ids_model(r@) =~= Seq::<int>::empty());
                }
                r
            },
            Some(k) => {
                let mut out: Vec<usize> = Vec::new();
                proof {
                    assert(ids_model(out@) =~= Seq::<int>::empty());
                }
                collect_cluster_ids(&self.partitions[k].1, &mut out);
                proof {
                    assert(Seq::<int>::empty() + tree_ids(self@.partitions[k as int].1)
                        =~= tree_ids(self@.partitions[k as int].1));
                }
                out
            },
        }
    }

    /// Full scan of the length partition for `tokens`.
    fn full_search(&self, tokens: &Vec<String>) -> (r: Option<usize>)
        requires
            self.wf(),
        ensures
            ({
                let res = full_search_spec(self@, tokens.deep_view());
                match r {
                    Some(id) => res == Some(id as int) && 1 <= id <= self.clusters@.len(),
                    None => res is None,
                }
            }),
    {
        let all_ids = self.get_clusters_ids_for_seq_len(tokens.len());
        proof {
            assert(tokens.deep_view().len() == tokens@.len());
        }
        Self::fast_match(&self.clusters, &all_ids, tokens, 1, 1, true, &self.scheme.check)
    }

    /// Read-only lookup of the best cluster for a line, requiring agreement
    /// on every position; returns a copy of the cluster.
    pub fn match_cluster(&self, content: &str, strategy: SearchStrategy) -> (r: Option<LogCluster>)
        requires
            self.wf(),
        ensures
            match r {
                Some(c) => match_spec(self@, content@, strategy) == Some(c@.cluster_id) && 1 <= c
                    @.cluster_id <= self@.clusters.len() && c@ == self@.clusters[c@.cluster_id - 1],
                None => match_spec(self@, content@, strategy) is None,
            },
            strategy is Full && r is None ==> !(exists|id: int|
                1 <= id <= self@.clusters.len() && fully_matches(
                    #[trigger] self@.clusters[id - 1],
                    tokenize_spec(content@, self@.extra_delimiters),
                    self@.check(),
                )),
            strategy is Full ==> (match r {
                Some(c) => fully_matches(
                    self@.clusters[c@.cluster_id - 1],
                    tokenize_spec(content@, self@.extra_delimiters),
                    self@.check(),
                ),
                None => true,
            }),
    {
        proof {
            match strategy {
                SearchStrategy::Full => {
                    lemma_full_search_complete(
                        self@,
                        tokenize_spec(content@, self@.extra_delimiters),
                    );
                },
                _ => {},
            }
        }
        let content_tokens = self.get_content_as_tokens(content);
        let id_found = match strategy {
            SearchStrategy::Fast => self.tree_search(&content_tokens, 1, 1),
            SearchStrategy::Full => self.full_search(&content_tokens),
            SearchStrategy::Fallback => match self.tree_search(&content_tokens, 1, 1) {
                Some(id) => Some(id),
                None => self.full_search(&content_tokens),
            },
        };
        match id_found {
            Some(id) => {
                proof {
                    assert(clusters_model(self.clusters@)[id - 1] == self.clusters@[id - 1]@);
                }
                Some(self.clusters[id - 1].clone())
            },
            None => None,
        }
    }

    /// The cluster with the given identifier, when it exists.
    pub fn get_cluster_by_id(&self, cluster_id: usize) -> (r: Option<&LogCluster>)
        ensures
            match r {
                Some(c) => 1 <= cluster_id as int <= self@.clusters.len() && c@ == self@.clusters[
                    cluster_id - 1],
                None => !(1 <= cluster_id as int <= self@.clusters.len()),
            },
    {
        if 1 <= cluster_id && cluster_id <= self.clusters.len() {
            proof {
                assert(clusters_model(self.clusters@)[cluster_id - 1] == self.clusters@[cluster_id
                    - 1]@);
            }
            Some(&self.clusters[cluster_id - 1])
        } else {
            None
        }
    }
}

impl Drain {
    /// A human-readable rendering of the whole tree, partition by
    /// partition, for inspection. The text is a debugging aid; no
    /// particular format is promised.
    pub fn print_tree(&self, max_clusters: usize) -> String {
        let mut text = String::from_str("<root>\n");
        let mut i: usize = 0;
        while i < self.partitions.len()
            decreases self.partitions@.len() - i,
        {
            let key = crate::text::decimal_string(self.partitions[i].0);
            let part = self.partitions[i].1.print(key.as_str(), 1, max_clusters, &self.clusters);
            text.append(part.as_str());
            i = i + 1;
        }
        text
    }
}

/// Appends every identifier of the subtree to `out`, in traversal order.
fn collect_cluster_ids(node: &Node, out: &mut Vec<usize>)
    ensures
        ids_model(final(out)@) == ids_model(old(out)@) + tree_ids(node_model(*node)),
    decreases *node,
{
    let ghost m = node_model(*node);
    let ghost base = ids_model(old(out)@);
    proof {
        assert(m.children == children_models(node.children@));
        assert(m.cluster_ids =~= ids_model(node.cluster_ids@));
    }
    let mut i: usize = 0;
    while i < node.cluster_ids.len()
        invariant
            i <= node.cluster_ids@.len(),
            m == node_model(*node),
            base == ids_model(old(out)@),
            ids_model(out@) == base + ids_model(node.cluster_ids@).subrange(0, i as int),
        decreases node.cluster_ids@.len() - i,
    {
        let ghost ob = out@;
        out.push(node.cluster_ids[i]);
        i = i + 1;
        proof {
            assert(out@ == ob.push(node.cluster_ids@[i - 1]));
            assert(ids_model(out@) =~= ids_model(ob).push(node.cluster_ids@[i - 1] as int));
            assert(ids_model(out@) =~= base + ids_model(node.cluster_ids@).subrange(0, i as int));
        }
    }
    proof {
        assert(ids_model(node.cluster_ids@).subrange(0, node.cluster_ids@.len() as int)
            =~= m.cluster_ids);
    }
    let mut j: usize = 0;
    while j < node.children.len()
        invariant
            j <= node.children@.len(),
            m == node_model(*node),
            base == ids_model(old(out)@),
            m.children.len() == node.children@.len(),
            ids_model(out@) + children_ids_from(m.children, j as int) == base + m.cluster_ids
                + children_ids_from(m.children, 0),
        decreases node.children@.len() - j,
    {
        proof {
            assert(m.children == children_models(node.children@));
            assert(m.children[j as int].1 == node_model(node.children@[j as int].1));
        }
        collect_cluster_ids(&node.children[j].1, out);
        j = j + 1;
        proof {
            assert((ids_model(out@) + children_ids_from(m.children, j as int)) =~= (base
                + m.cluster_ids + children_ids_from(m.children, 0)));
        }
    }
    proof {
        assert(children_ids_from(m.children, node.children@.len() as int) =~= Seq::<int>::empty());
        assert(ids_model(out@) + Seq::<int>::empty() =~= ids_model(out@));
    }
    match &node.wildcard_child {
        Some(b) => {
            proof {
                assert(m.wildcard == Some(Box::new(node_model(**b))));
            }
            collect_cluster_ids(&**b, out);
            proof {
                assert(ids_model(out@) =~= base + tree_ids(m));
            }
        },
        None => {
            proof {
                assert(tree_ids(m) =~= m.cluster_ids + children_ids_from(m.children, 0));
                assert(ids_model(out@) =~= base + tree_ids(m));
            }
        },
    }
}

/// One ingest step leaves the engine well-formed.
pub proof fn lemma_ingest_preserves_wf(d: DrainModel, content: Seq<char>)
    requires
        model_wf(d),
    ensures
        model_wf(ingest_spec(d, content).0),
{
    let tokens = tokenize_spec(content, d.extra_delimiters);
    let d2 = ingest_spec(d, content).0;
    match drain_match_tokens(d, tokens, d.sim_num, d.sim_den) {
        Some(id) => {
            lemma_match_id_valid(d, tokens, d.sim_num, d.sim_den);
            let c = d.clusters[id - 1];
            if tokens.len() == c.tokens.len() {
                lemma_generalize_len(
                    c.tokens,
                    tokens,
                    d.check(),
                    d.prefix,
                    d.name,
                    d.suffix,
                    d.mint_counter,
                );
            }
            assert(d2.clusters[id - 1].tokens.len() == c.tokens.len());
            assert(d2.partitions == d.partitions);
            assert forall|i: int|
                0 <= i < d2.partitions.len() implies partition_ok(
                #[trigger] d2.partitions[i],
                d2.clusters,
            ) by {
                assert(partition_ok(d.partitions[i], d.clusters));
                assert forall|x: int| #[trigger] tree_ids(d2.partitions[i].1).contains(x) implies 1
                    <= x <= d2.clusters.len() && d2.clusters[x - 1].tokens.len()
                    == d2.partitions[i].0 by {
                    assert(tree_ids(d.partitions[i].1).contains(x));
                }
            }
            assert forall|x: int|
                1 <= x <= d2.clusters.len() implies #[trigger] cluster_reachable(d2, x) by {
                assert(cluster_reachable(d, x));
                assert(d2.clusters[x - 1].tokens.len() == d.clusters[x - 1].tokens.len());
            }
            assert forall|i: int|
                0 <= i < d2.partitions.len() implies tree_ids(
                (#[trigger] d2.partitions[i]).1,
            ).no_duplicates() by {
                assert(tree_ids(d.partitions[i].1).no_duplicates());
            }
        },
        None => {
            let id = d.clusters.len() as int + 1;
            let pi = find_partition_idx(d.partitions, tokens.len() as int);
            lemma_find_partition_idx(d.partitions, tokens.len() as int);
            lemma_find_partition_prefix(d.partitions, tokens.len() as int);
            let mnd = d.depth - 2;
            let target = if pi == -1 {
                empty_node()
            } else {
                d.partitions[pi].1
            };
            let inserted = node_insert(
                target,
                tokens,
                0,
                mnd,
                d.max_children,
                d.parametrize_numeric,
                id,
            );
            let ti = if pi == -1 {
                d.partitions.len() as int
            } else {
                pi
            };
            if pi == -1 {
                lemma_tree_ids_empty();
                assert(d2.partitions == d.partitions.push((tokens.len() as int, inserted)));
            } else {
                assert(tree_ids(target).no_duplicates());
                if tree_ids(target).contains(id) {
                    assert(partition_ok(d.partitions[pi], d.clusters));
                    assert(false);
                }
                assert(d2.partitions == d.partitions.update(
                    pi,
                    (d.partitions[pi].0, inserted),
                ));
            }
            assert(!tree_ids(target).contains(id));
            lemma_insert_ids_fresh(
                target,
                tokens,
                0,
                mnd,
                d.max_children,
                d.parametrize_numeric,
                id,
            );
            assert(d2.partitions[ti].1 == inserted);
            assert(d2.partitions[ti].0 == tokens.len() as int);
            assert forall|i: int|
                0 <= i < d2.partitions.len() implies partition_ok(
                #[trigger] d2.partitions[i],
                d2.clusters,
            ) by {
                assert forall|x: int| #[trigger] tree_ids(d2.partitions[i].1).contains(x) implies 1
                    <= x <= d2.clusters.len() && d2.clusters[x - 1].tokens.len()
                    == d2.partitions[i].0 by {
                    if i == ti {
                        if tree_ids(target).contains(x) {
                            if pi != -1 {
                                assert(partition_ok(d.partitions[pi], d.clusters));
                                assert(d2.clusters[x - 1] == d.clusters[x - 1]);
                            }
                        } else {
                            assert(x == id);
                        }
                    } else {
                        assert(d2.partitions[i] == d.partitions[i]);
                        assert(partition_ok(d.partitions[i], d.clusters));
                        assert(tree_ids(d.partitions[i].1).contains(x));
                    }
                }
            }
            assert forall|i: int|
                0 <= i < d2.partitions.len() implies tree_ids(
                (#[trigger] d2.partitions[i]).1,
            ).no_duplicates() by {
                if i != ti {
                    assert(d2.partitions[i] == d.partitions[i]);
                    assert(tree_ids(d.partitions[i].1).no_duplicates());
                }
            }
            if pi == -1 {
                assert forall|i: int, j: int|
                    0 <= i < j < d2.partitions.len() implies d2.partitions[i].0
                    != d2.partitions[j].0 by {
                    if j == d.partitions.len() {
                        assert(d.partitions[i].0 != tokens.len() as int);
                    }
                }
            }
            assert forall|x: int|
                1 <= x <= d2.clusters.len() implies #[trigger] cluster_reachable(d2, x) by {
                if x == id {
                    assert(d2.clusters[x - 1].tokens.len() == tokens.len() as int);
                    assert forall|j: int|
                        0 <= j < ti implies (#[trigger] d2.partitions[j]).0 != tokens.len()
                        as int by {
                        assert(d2.partitions[j].0 == d.partitions[j].0);
                        if pi != -1 {
                            assert(d.partitions[j].0 != tokens.len() as int);
                        }
                    }
                    lemma_find_partition_first(d2.partitions, tokens.len() as int, ti);
                    assert(tree_ids(inserted).contains(id));
                } else {
                    assert(cluster_reachable(d, x));
                    let lx = d.clusters[x - 1].tokens.len() as int;
                    let pix = find_partition_idx(d.partitions, lx);
                    lemma_find_partition_idx(d.partitions, lx);
                    lemma_find_partition_prefix(d.partitions, lx);
                    assert(0 <= pix < d.partitions.len() && d.partitions[pix].0 == lx);
                    assert(d2.clusters[x - 1] == d.clusters[x - 1]);
                    assert forall|j: int|
                        0 <= j < pix implies (#[trigger] d2.partitions[j]).0 != lx by {
                        assert(d2.partitions[j].0 == d.partitions[j].0);
                        assert(d.partitions[j].0 != lx);
                    }
                    assert(d2.partitions[pix].0 == lx);
                    lemma_find_partition_first(d2.partitions, lx, pix);
                    assert(find_partition_idx(d2.partitions, lx) == pix);
                    if pix == ti {
                        assert(tree_ids(inserted).contains(x));
                    } else {
                        assert(d2.partitions[pix] == d.partitions[pix]);
                    }
                }
            }
        },
    }
}

/// A cluster agrees with the observed tokens at full similarity: same
/// length, and every position equal or a placeholder.
pub open spec fn fully_matches(c: ClusterModel, tokens: Seq<Seq<char>>, check: Seq<char>) -> bool {
    &&& c.tokens.len() == tokens.len()
    &&& forall|i: int|
        0 <= i < tokens.len() ==> #[trigger] c.tokens[i] == tokens[i] || is_wildcard_token(
            check,
            c.tokens[i],
        )
}

/// Under a well-formed engine the identifiers reachable for a token count
/// are exactly the clusters of that count, each exactly once.
pub proof fn lemma_partition_ids_exact(d: DrainModel, seq_len: int)
    requires
        model_wf(d),
    ensures
        ({
            let pi = find_partition_idx(d.partitions, seq_len);
            let ids = if pi == -1 {
                Seq::<int>::empty()
            } else {
                tree_ids(d.partitions[pi].1)
            };
            &&& ids.no_duplicates()
            &&& forall|id: int|
                #[trigger] ids.contains(id) ==> 1 <= id <= d.clusters.len() && d.clusters[id
                    - 1].tokens.len() == seq_len
            &&& forall|id: int|
                1 <= id <= d.clusters.len() && (#[trigger] d.clusters[id - 1]).tokens.len()
                    == seq_len ==> ids.contains(id)
        }),
{
    let pi = find_partition_idx(d.partitions, seq_len);
    lemma_find_partition_idx(d.partitions, seq_len);
    if pi == -1 {
        let ids = Seq::<int>::empty();
        assert forall|id: int|
            1 <= id <= d.clusters.len() && (#[trigger] d.clusters[id - 1]).tokens.len()
                == seq_len implies ids.contains(id) by {
            assert(cluster_reachable(d, id));
        }
    } else {
        let ids = tree_ids(d.partitions[pi].1);
        assert(d.partitions[pi].0 == seq_len);
        assert(ids.no_duplicates());
        assert forall|id: int| #[trigger] ids.contains(id) implies 1 <= id <= d.clusters.len()
            && d.clusters[id - 1].tokens.len() == seq_len by {
            assert(partition_ok(d.partitions[pi], d.clusters));
        }
        assert forall|id: int|
            1 <= id <= d.clusters.len() && (#[trigger] d.clusters[id - 1]).tokens.len()
                == seq_len implies ids.contains(id) by {
            assert(cluster_reachable(d, id));
        }
    }
}

/// Completeness of the full scan: it finds a cluster exactly when some
/// cluster of the observed token count agrees on every position, and what
/// it finds agrees on every position.
pub proof fn lemma_full_search_complete(d: DrainModel, tokens: Seq<Seq<char>>)
    requires
        model_wf(d),
    ensures
        (full_search_spec(d, tokens) is Some) <==> (exists|id: int|
            1 <= id <= d.clusters.len() && fully_matches(
                #[trigger] d.clusters[id - 1],
                tokens,
                d.check(),
            )),
        match full_search_spec(d, tokens) {
            Some(id) => 1 <= id <= d.clusters.len() && fully_matches(
                d.clusters[id - 1],
                tokens,
                d.check(),
            ),
            None => true,
        },
{
    let pi = find_partition_idx(d.partitions, tokens.len() as int);
    lemma_partition_ids_exact(d, tokens.len() as int);
    let ids = if pi == -1 {
        Seq::<int>::empty()
    } else {
        tree_ids(d.partitions[pi].1)
    };
    lemma_fold_winner(ids, d.clusters, tokens, d.check(), true, None);
    let den = sim_den_of(tokens);
    match best_match_from(ids, d.clusters, tokens, d.check(), true, None) {
        Some(b) => {
            lemma_sim_num_bounded(d.clusters[b.0 - 1].tokens, tokens, d.check(), true);
            if b.1 * 1 >= 1 * den {
                assert(b.1 == den);
                lemma_full_sim_conv(d.clusters[b.0 - 1].tokens, tokens, d.check());
                assert(fully_matches(d.clusters[b.0 - 1], tokens, d.check()));
            } else {
                if exists|id: int|
                    1 <= id <= d.clusters.len() && fully_matches(
                        #[trigger] d.clusters[id - 1],
                        tokens,
                        d.check(),
                    ) {
                    let id = choose|id: int|
                        1 <= id <= d.clusters.len() && fully_matches(
                            #[trigger] d.clusters[id - 1],
                            tokens,
                            d.check(),
                        );
                    assert(ids.contains(id));
                    let j = choose|j: int| 0 <= j < ids.len() && ids[j] == id;
                    lemma_full_sim(d.clusters[id - 1].tokens, tokens, d.check());
                    assert(!score_beats(
                        sim_num_of(d.clusters[id - 1].tokens, tokens, d.check(), true),
                        param_count_of(d.clusters[id - 1].tokens, tokens, d.check()),
                        b.1,
                        b.2,
                    ));
                    assert(false);
                }
            }
        },
        None => {
            if exists|id: int|
                1 <= id <= d.clusters.len() && fully_matches(
                    #[trigger] d.clusters[id - 1],
                    tokens,
                    d.check(),
                ) {
                let id = choose|id: int|
                    1 <= id <= d.clusters.len() && fully_matches(
                        #[trigger] d.clusters[id - 1],
                        tokens,
                        d.check(),
                    );
                assert(ids.contains(id));
                let j = choose|j: int| 0 <= j < ids.len() && ids[j] == id;
                assert(!(1 <= ids[j] <= d.clusters.len()));
                assert(false);
            }
        },
    }
}

/// Index of the length partition keyed by `key`, if any.
fn find_partition_pos(partitions: &Vec<(usize, Node)>, key: usize) -> (r: Option<usize>)
    ensures
        match r {
            Some(k) => find_partition_idx(partitions_model(partitions@), key as int) == k as int
                && k < partitions@.len(),
            None => find_partition_idx(partitions_model(partitions@), key as int) == -1,
        },
{
    let n = partitions.len();
    let mut i: usize = 0;
    while i < n
        invariant
            i <= n,
            n == partitions@.len(),
            forall|j: int| 0 <= j < i ==> partitions_model(partitions@)[j].0 != key as int,
        decreases n - i,
    {
        if partitions[i].0 == key {
            proof {
                lemma_find_partition_first(partitions_model(partitions@), key as int, i as int);
            }
            return Some(i);
        }
        i = i + 1;
    }
    proof {
        lemma_find_partition_first(partitions_model(partitions@), key as int, n as int);
    }
    None
}

} // verus!
