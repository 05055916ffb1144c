//! Log clusters and the outcome types of the engine: a cluster holds a
//! template (an ordered token sequence), its identifier and the count of
//! lines it has absorbed, and can generalize its template against a newly
//! observed token sequence.

use vstd::prelude::*;
use vstd::string::*;
use vstd::pervasive::arbitrary;
use crate::model::ClusterModel;
use crate::model::NodeModel;
use crate::model::empty_node;
use crate::model::find_child;
use crate::model::find_child_idx;
use crate::model::generalize_tokens;
use crate::model::lemma_find_child_idx;
use crate::model::lemma_mint_is_wildcard;
use crate::model::mint_token;
use crate::model::node_insert;
use crate::model::node_search;
use crate::model::sat_inc;
use crate::model::wildcard_of;
use crate::text::str_equal;
use crate::text::str_has_digit;
use crate::text::decimal_string;
use crate::text::join_spaced;
use crate::text::join_tokens;
use crate::text::str_starts_with;

verus! {

/// Strategy of a read-only cluster lookup.
#[derive(Clone, Copy, Debug)]
pub enum SearchStrategy {
    Full,
    Fast,
    Fallback,
}

/// Outcome of an ingest: a cluster was created, its template was
/// generalized, or it matched unchanged.
#[derive(Clone, Copy, Debug, PartialEq, Eq, Structural)]
pub enum UpdateType {
    Unchanged,
    Created,
    Updated,
}

/// How placeholders are spelled: a minted placeholder is
/// `prefix + name + counter + suffix`, and a token is classified as a
/// placeholder exactly when it starts with `check`, the concatenation
/// `prefix + name`.
pub struct TokenScheme {
    pub prefix: String,
    pub name: String,
    pub suffix: String,
    pub check: String,
}

impl TokenScheme {
    pub open spec fn wf(self) -> bool {
        self.check@ == self.prefix@ + self.name@
    }

    pub fn new(prefix: &str, name: &str, suffix: &str) -> (s: Self)
        ensures
            s.wf(),
            s.prefix@ == prefix@,
            s.name@ == name@,
            s.suffix@ == suffix@,
    {
        let mut check = String::from_str(prefix);
        check.append(name);
        TokenScheme {
            prefix: String::from_str(prefix),
            name: String::from_str(name),
            suffix: String::from_str(suffix),
            check,
        }
    }
}

/// A fresh placeholder token for counter value `k`.
pub fn mint_placeholder(scheme: &TokenScheme, k: usize) -> (r: String)
    ensures
        r@ == mint_token(scheme.prefix@, scheme.name@, k as int, scheme.suffix@),
{
    let mut r = String::from_str(scheme.prefix.as_str());
    r.append(scheme.name.as_str());
    let digits = decimal_string(k);
    r.append(digits.as_str());
    r.append(scheme.suffix.as_str());
    proof {
        assert(r@ =~= mint_token(scheme.prefix@, scheme.name@, k as int, scheme.suffix@));
    }
    r
}

/// A copy of a token vector with the same contents.
pub fn clone_tokens(v: &Vec<String>) -> (r: Vec<String>)
    ensures
        r.deep_view() == v.deep_view(),
{
    let mut r: Vec<String> = Vec::new();
    let mut i: usize = 0;
    while i < v.len()
        invariant
            i <= v@.len(),
            r@.len() == i,
            forall|j: int| 0 <= j < i ==> r@[j]@ == v@[j]@,
        decreases v@.len() - i,
    {
        r.push(v[i].clone());
        i = i + 1;
    }
    proof {
        assert(r.deep_view() =~~= v.deep_view());
    }
    r
}

/// A template cluster.
pub struct LogCluster {
    pub tokens: Vec<String>,
    pub cluster_id: usize,
    pub size: usize,
}

impl View for LogCluster {
    type V = ClusterModel;

    open spec fn view(&self) -> ClusterModel {
        ClusterModel {
            tokens: self.tokens.deep_view(),
            cluster_id: self.cluster_id as int,
            size: self.size as int,
        }
    }
}

impl Clone for LogCluster {
    /// A clone carries the same template, identifier and size.
    fn clone(&self) -> (r: Self)
        ensures
            r@ == self@,
    {
        LogCluster {
            tokens: clone_tokens(&self.tokens),
            cluster_id: self.cluster_id,
            size: self.size,
        }
    }
}

impl LogCluster {
    /// A new cluster starts with the observed tokens as its template and
    /// size 1.
    pub fn new(tokens: &Vec<String>, cluster_id: usize) -> (c: Self)
        ensures
            c@ == (ClusterModel {
                tokens: tokens.deep_view(),
                cluster_id: cluster_id as int,
                size: 1,
            }),
    {
        LogCluster { tokens: clone_tokens(tokens), cluster_id, size: 1 }
    }

    pub fn get_tokens(&self) -> (r: Vec<String>)
        ensures
            r.deep_view() == self@.tokens,
    {
        clone_tokens(&self.tokens)
    }

    pub fn get_cluster_id(&self) -> (r: usize)
        ensures
            r as int == self@.cluster_id,
    {
        self.cluster_id
    }

    /// The template: the tokens joined by single spaces.
    pub fn get_template(&self) -> (r: String)
        ensures
            r@ == join_spaced(self@.tokens),
    {
        join_tokens(&self.tokens)
    }

    /// Generalizes the template against an observed token sequence of the
    /// same length: a position is kept when it equals the observed token or
    /// is already a placeholder, and otherwise receives a freshly minted
    /// placeholder. The size grows on every call, whether or not the
    /// template changed; a length mismatch leaves the template alone and
    /// reports `Unchanged`. Returns the update kind and the new mint
    /// counter.
    pub fn update_template(
        &mut self,
        tokens: &Vec<String>,
        scheme: &TokenScheme,
        counter: usize,
    ) -> (r: (UpdateType, usize))
        requires
            scheme.wf(),
        ensures
            final(self)@.cluster_id == old(self)@.cluster_id,
            final(self)@.size == sat_inc(old(self)@.size),
            ({
                let g = generalize_tokens(
                    old(self)@.tokens,
                    tokens.deep_view(),
                    scheme.check@,
                    scheme.prefix@,
                    scheme.name@,
                    scheme.suffix@,
                    counter as int,
                );
                if tokens.deep_view().len() == old(self)@.tokens.len() {
                    &&& final(self)@.tokens == g.0
                    &&& r.1 as int == g.1
                    &&& r.0 == (if g.0 == old(self)@.tokens {
                        UpdateType::Unchanged
                    } else {
                        UpdateType::Updated
                    })
                } else {
                    &&& final(self)@.tokens == old(self)@.tokens
                    &&& r.1 == counter
                    &&& r.0 == UpdateType::Unchanged
                }
            }),
    {
        let ghost templ = old(self)@.tokens;
        let ghost obsv = tokens.deep_view();
        let ghost checkv = scheme.check@;
        let ghost prefixv = scheme.prefix@;
        let ghost namev = scheme.name@;
        let ghost suffixv = scheme.suffix@;
        let ghost g = generalize_tokens(
            templ,
            obsv,
            checkv,
            prefixv,
            namev,
            suffixv,
            counter as int,
        );
        if tokens.len() != self.tokens.len() {
            self.size = if self.size < usize::MAX {
                self.size + 1
            } else {
                self.size
            };
            return (UpdateType::Unchanged, counter);
        }
        let n = tokens.len();
        let mut new_tokens: Vec<String> = Vec::new();
        let mut changed = false;
        let mut cur: usize = counter;
        let mut i: usize = 0;
        proof {
            assert(templ.skip(0) =~= templ);
            assert(obsv.skip(0) =~= obsv);
            assert(new_tokens.deep_view() + generalize_tokens(
                templ,
                obsv,
                checkv,
                prefixv,
                namev,
                suffixv,
                counter as int,
            ).0 =~= g.0);
            assert(new_tokens.deep_view() =~= templ.subrange(0, 0));
        }
        while i < n
            invariant
                i <= n,
                n == obsv.len(),
                n == templ.len(),
                n == tokens@.len(),
                n == self.tokens@.len(),
                *self == *old(self),
                scheme.wf(),
                checkv == scheme.check@,
                prefixv == scheme.prefix@,
                namev == scheme.name@,
                suffixv == scheme.suffix@,
                templ == old(self)@.tokens,
                obsv == tokens.deep_view(),
                counter <= cur,
                g == generalize_tokens(
                    templ,
                    obsv,
                    checkv,
                    prefixv,
                    namev,
                    suffixv,
                    counter as int,
                ),
                g.0 == new_tokens.deep_view() + generalize_tokens(
                    templ.skip(i as int),
                    obsv.skip(i as int),
                    checkv,
                    prefixv,
                    namev,
                    suffixv,
                    cur as int,
                ).0,
                g.1 == generalize_tokens(
                    templ.skip(i as int),
                    obsv.skip(i as int),
                    checkv,
                    prefixv,
                    namev,
                    suffixv,
                    cur as int,
                ).1,
                new_tokens.deep_view().len() == i,
                changed <==> new_tokens.deep_view() != templ.subrange(0, i as int),
            decreases n - i,
        {
            let ghost ts = templ.skip(i as int);
            let ghost os = obsv.skip(i as int);
            let ghost old_dv = new_tokens.deep_view();
            proof {
                assert(ts[0] == templ[i as int]);
                assert(os[0] == obsv[i as int]);
                assert(ts.drop_first() =~= templ.skip(i as int + 1));
                assert(os.drop_first() =~= obsv.skip(i as int + 1));
                assert(tokens@[i as int]@ == obsv[i as int]);
                assert(self.tokens@[i as int]@ == templ[i as int]);
            }
            let keep = tokens[i] == self.tokens[i] || str_starts_with(
                self.tokens[i].as_str(),
                scheme.check.as_str(),
            );
            if keep {
                new_tokens.push(self.tokens[i].clone());
                proof {
                    assert(new_tokens.deep_view() =~~= old_dv.push(templ[i as int]));
                    let rest = generalize_tokens(
                        templ.skip(i as int + 1),
                        obsv.skip(i as int + 1),
                        checkv,
                        prefixv,
                        namev,
                        suffixv,
                        cur as int,
                    );
                    assert(old_dv + (seq![templ[i as int]] + rest.0) =~= old_dv.push(
                        templ[i as int],
                    ) + rest.0);
                    if !changed {
                        assert(new_tokens.deep_view() =~= templ.subrange(0, i as int + 1));
                    } else {
                        lemma_unequal_index(old_dv, templ.subrange(0, i as int));
                        let j = choose|j: int|
                            0 <= j < i && old_dv[j] != templ.subrange(0, i as int)[j];
                        assert(new_tokens.deep_view()[j] != templ.subrange(0, i as int + 1)[j]);
                    }
                }
            } else {
                cur = if cur < usize::MAX {
                    cur + 1
                } else {
                    cur
                };
                let minted = mint_placeholder(scheme, cur);
                proof {
                    lemma_mint_is_wildcard(prefixv, namev, cur as int, suffixv);
                    assert(minted@ != templ[i as int]);
                }
                new_tokens.push(minted);
                changed = true;
                proof {
                    assert(new_tokens.deep_view() =~~= old_dv.push(
                        mint_token(prefixv, namev, cur as int, suffixv),
                    ));
                    let rest = generalize_tokens(
                        templ.skip(i as int + 1),
                        obsv.skip(i as int + 1),
                        checkv,
                        prefixv,
                        namev,
                        suffixv,
                        cur as int,
                    );
                    assert(old_dv + (seq![mint_token(prefixv, namev, cur as int, suffixv)]
                        + rest.0) =~= old_dv.push(mint_token(prefixv, namev, cur as int, suffixv))
                        + rest.0);
                    assert(new_tokens.deep_view()[i as int] != templ.subrange(0, i as int + 1)[
                    i as int]);
                }
            }
            i = i + 1;
        }
        proof {
            assert(templ.skip(n as int) =~= Seq::<Seq<char>>::empty());
            assert(obsv.skip(n as int) =~= Seq::<Seq<char>>::empty());
            assert(g.0 =~= new_tokens.deep_view());
            assert(templ.subrange(0, n as int) =~= templ);
        }
        self.tokens = new_tokens;
        self.size = if self.size < usize::MAX {
            self.size + 1
        } else {
            self.size
        };
        if changed {
            (UpdateType::Updated, cur)
        } else {
            (UpdateType::Unchanged, cur)
        }
    }
}

/// A prefix-tree node: literal children keyed by token in insertion order
/// (keys are unique), at most one wildcard child, and the identifiers of the
/// clusters attached at this node.
pub struct Node {
    pub children: Vec<(String, Node)>,
    pub wildcard_child: Option<Box<Node>>,
    pub cluster_ids: Vec<usize>,
}

/// The ghost tree that a node stands for.
pub open spec fn node_model(n: Node) -> NodeModel
    decreases n,
{
    NodeModel {
        children: children_models(n.children@),
        wildcard: match n.wildcard_child {
            Some(b) => Some(Box::new(node_model(*b))),
            None => None,
        },
        cluster_ids: Seq::new(n.cluster_ids@.len(), |i: int| n.cluster_ids@[i] as int),
    }
}

pub open spec fn children_models(children: Seq<(String, Node)>) -> Seq<(Seq<char>, NodeModel)>
    decreases children,
{
    Seq::new(
        children.len(),
        |i: int|
            if 0 <= i < children.len() {
                (children[i].0@, node_model(children[i].1))
            } else {
                arbitrary()
            },
    )
}

/// Index of the literal child keyed by `token`, if any.
fn find_child_pos(children: &Vec<(String, Node)>, token: &str) -> (r: Option<usize>)
    ensures
        match r {
            Some(k) => find_child_idx(children_models(children@), token@) == k as int && k
                < children@.len(),
            None => find_child_idx(children_models(children@), token@) == -1,
        },
{
    let n = children.len();
    let mut i: usize = 0;
    while i < n
        invariant
            i <= n,
            n == children@.len(),
            forall|j: int| 0 <= j < i ==> children_models(children@)[j].0 != token@,
        decreases n - i,
    {
        if str_equal(children[i].0.as_str(), token) {
            proof {
                lemma_find_child_first(children_models(children@), token@, i as int);
            }
            return Some(i);
        }
        i = i + 1;
    }
    proof {
        lemma_find_child_first(children_models(children@), token@, n as int);
    }
    None
}

/// `find_child_idx` returns the first index whose key matches.
proof fn lemma_find_child_first(s: Seq<(Seq<char>, NodeModel)>, t: Seq<char>, k: int)
    requires
        0 <= k <= s.len(),
        forall|j: int| 0 <= j < k ==> (#[trigger] s[j]).0 != t,
        k < s.len() ==> s[k].0 == t,
    ensures
        k < s.len() ==> find_child_idx(s, t) == k,
        k == s.len() ==> find_child_idx(s, t) == -1,
    decreases s.len(),
{
    if s.len() > 0 && s[0].0 != t {
        assert(forall|j: int| 1 <= j < s.len() ==> s[j] == s.drop_first()[j - 1]);
        lemma_find_child_first(s.drop_first(), t, k - 1);
    }
}

impl Node {
    pub fn new() -> (n: Self)
        ensures
            node_model(n) == empty_node(),
    {
        let n = Node { children: Vec::new(), wildcard_child: None, cluster_ids: Vec::new() };
        proof {
            assert(n.children@.len() == 0);
            assert(children_models(n.children@) =~= Seq::<(Seq<char>, NodeModel)>::empty());
            assert(node_model(n).children == children_models(n.children@));
            assert(node_model(n).cluster_ids =~= empty_node().cluster_ids);
        }
        n
    }

    /// The literal child keyed by `token`.
    pub fn get(&self, token: &String) -> (r: Option<&Node>)
        ensures
            match r {
                Some(n) => find_child(node_model(*self).children, token@) == Some(node_model(*n)),
                None => find_child(node_model(*self).children, token@) is None,
            },
    {
        match find_child_pos(&self.children, token.as_str()) {
            Some(k) => Some(&self.children[k].1),
            None => None,
        }
    }

    pub fn get_wildcard_child(&self) -> (r: Option<&Node>)
        ensures
            match r {
                Some(n) => node_model(*self).wildcard == Some(Box::new(node_model(*n))),
                None => node_model(*self).wildcard is None,
            },
    {
        match &self.wildcard_child {
            Some(b) => Some(&**b),
            None => None,
        }
    }

    /// The literal child for `token` when present, else the wildcard child.
    pub fn find_next(&self, token: &String) -> (r: Option<&Node>)
        ensures
            match r {
                Some(n) => crate::model::find_next(node_model(*self), token@) == Some(
                    node_model(*n),
                ),
                None => crate::model::find_next(node_model(*self), token@) is None,
            },
    {
        match find_child_pos(&self.children, token.as_str()) {
            Some(k) => Some(&self.children[k].1),
            None => match &self.wildcard_child {
                Some(b) => Some(&**b),
                None => None,
            },
        }
    }

    /// The identifier of the first cluster attached here.
    pub fn first_cluster(&self) -> (r: Option<usize>)
        ensures
            match r {
                Some(id) => node_model(*self).cluster_ids.len() > 0 && id as int == node_model(
                    *self,
                ).cluster_ids[0],
                None => node_model(*self).cluster_ids.len() == 0,
            },
    {
        if self.cluster_ids.len() > 0 {
            Some(self.cluster_ids[0])
        } else {
            None
        }
    }

    /// Same as `first_cluster`: in the id-indexed design the leaf holds the
    /// identifiers themselves.
    pub fn get_first_cluster_id(&self) -> (r: Option<usize>)
        ensures
            match r {
                Some(id) => node_model(*self).cluster_ids.len() > 0 && id as int == node_model(
                    *self,
                ).cluster_ids[0],
                None => node_model(*self).cluster_ids.len() == 0,
            },
    {
        self.first_cluster()
    }

    pub fn has_child(&self, token: &str) -> (r: bool)
        ensures
            r == (find_child_idx(node_model(*self).children, token@) != -1),
    {
        find_child_pos(&self.children, token).is_some()
    }

    pub fn has_wildcard(&self) -> (r: bool)
        ensures
            r == (node_model(*self).wildcard is Some),
    {
        self.wildcard_child.is_some()
    }

    /// The identifiers of the clusters attached at this node.
    pub fn get_clusters(&self) -> (r: Vec<usize>)
        ensures
            r@ == self.cluster_ids@,
            r@.len() == node_model(*self).cluster_ids.len(),
            forall|i: int|
                0 <= i < r@.len() ==> r@[i] as int == node_model(*self).cluster_ids[i],
    {
        let mut r: Vec<usize> = Vec::new();
        let mut i: usize = 0;
        while i < self.cluster_ids.len()
            invariant
                i <= self.cluster_ids@.len(),
                r@ == self.cluster_ids@.subrange(0, i as int),
            decreases self.cluster_ids@.len() - i,
        {
            r.push(self.cluster_ids[i]);
            i = i + 1;
            proof {
                assert(r@ =~= self.cluster_ids@.subrange(0, i as int));
            }
        }
        proof {
            assert(self.cluster_ids@.subrange(0, self.cluster_ids@.len() as int)
                =~= self.cluster_ids@);
        }
        r
    }

    /// The number of child nodes, the wildcard child included.
    pub fn child_count(&self) -> (r: usize)
        ensures
            node_model(*self).wildcard is None ==> r == node_model(*self).children.len(),
            node_model(*self).wildcard is Some && node_model(*self).children.len() < usize::MAX
                ==> r == node_model(*self).children.len() + 1,
    {
        proof {
            assert(node_model(*self).children == children_models(self.children@));
            assert(node_model(*self).children.len() == self.children@.len());
            assert(node_model(*self).wildcard is Some <==> self.wildcard_child is Some);
        }
        let n = self.children.len();
        if self.wildcard_child.is_some() && n < usize::MAX {
            n + 1
        } else {
            n
        }
    }

    /// The child nodes, literal children first in insertion order, then the
    /// wildcard child.
    pub fn children(&self) -> (r: Vec<&Node>)
        ensures
            r@.len() == node_model(*self).children.len() + (if node_model(*self).wildcard is Some {
                1int
            } else {
                0int
            }),
            forall|i: int|
                0 <= i < node_model(*self).children.len() ==> node_model(*(#[trigger] r@[i]))
                    == node_model(*self).children[i].1,
            node_model(*self).wildcard matches Some(w) ==> node_model(*r@[r@.len() - 1]) == *w,
    {
        proof {
            assert(node_model(*self).children == children_models(self.children@));
            assert(node_model(*self).wildcard is Some <==> self.wildcard_child is Some);
        }
        let mut r: Vec<&Node> = Vec::new();
        let mut i: usize = 0;
        while i < self.children.len()
            invariant
                i <= self.children@.len(),
                r@.len() == i,
                forall|j: int|
                    0 <= j < i ==> node_model(*(#[trigger] r@[j])) == children_models(
                        self.children@,
                    )[j].1,
            decreases self.children@.len() - i,
        {
            r.push(&self.children[i].1);
            i = i + 1;
        }
        proof {
            assert(node_model(*self).children.len() == self.children@.len());
        }
        match &self.wildcard_child {
            Some(b) => {
                r.push(&**b);
                proof {
                    assert(node_model(*self).wildcard == Some(Box::new(node_model(**b))));
                }
            },
            None => {},
        }
        r
    }
}

impl Node {
    /// Descends from this node (one level below the length partition),
    /// preferring the literal child and falling back to the wildcard child,
    /// and returns the node where the candidate cluster list lives; `None`
    /// when the path dead-ends.
    pub fn search(&self, tokens: &Vec<String>, log_cluster_depth: usize) -> (r: Option<&Node>)
        requires
            log_cluster_depth >= 2,
        ensures
            match r {
                Some(n) => node_search(
                    node_model(*self),
                    tokens.deep_view(),
                    0,
                    log_cluster_depth - 2,
                ) == Some(node_model(*n)),
                None => node_search(node_model(*self), tokens.deep_view(), 0, log_cluster_depth - 2)
                    is None,
            },
    {
        self.search_at(tokens, 0, log_cluster_depth - 2)
    }

    fn search_at(&self, tokens: &Vec<String>, idx: usize, max_node_depth: usize) -> (r: Option<
        &Node,
    >)
        ensures
            match r {
                Some(n) => node_search(
                    node_model(*self),
                    tokens.deep_view(),
                    idx as int,
                    max_node_depth as int,
                ) == Some(node_model(*n)),
                None => node_search(
                    node_model(*self),
                    tokens.deep_view(),
                    idx as int,
                    max_node_depth as int,
                ) is None,
            },
        decreases tokens@.len() - idx,
    {
        proof {
            assert(tokens.deep_view().len() == tokens@.len());
        }
        if idx >= tokens.len() || idx + 1 >= max_node_depth || idx + 1 == tokens.len() {
            Some(self)
        } else {
            proof {
                assert(tokens.deep_view()[idx as int] == tokens@[idx as int]@);
            }
            match self.find_next(&tokens[idx]) {
                Some(child) => child.search_at(tokens, idx + 1, max_node_depth),
                None => None,
            }
        }
    }

    /// Inserts a freshly created cluster's identifier into the tree,
    /// descending from this node (the length partition) and creating nodes
    /// as the child-count budget directs.
    pub fn add_cluster(
        &mut self,
        cluster_id: usize,
        tokens: &Vec<String>,
        log_cluster_depth: usize,
        max_children: usize,
        parametrize_numeric_tokens: bool,
    )
        requires
            log_cluster_depth >= 3,
        ensures
            node_model(*final(self)) == node_insert(
                node_model(*old(self)),
                tokens.deep_view(),
                0,
                log_cluster_depth - 2,
                max_children as int,
                parametrize_numeric_tokens,
                cluster_id as int,
            ),
    {
        self.add_cluster_at(cluster_id, tokens, 0, log_cluster_depth - 2, max_children,
            parametrize_numeric_tokens);
    }

    fn add_cluster_at(
        &mut self,
        cluster_id: usize,
        tokens: &Vec<String>,
        idx: usize,
        max_node_depth: usize,
        max_children: usize,
        parametrize_numeric_tokens: bool,
    )
        requires
            max_node_depth >= 1,
        ensures
            node_model(*final(self)) == node_insert(
                node_model(*old(self)),
                tokens.deep_view(),
                idx as int,
                max_node_depth as int,
                max_children as int,
                parametrize_numeric_tokens,
                cluster_id as int,
            ),
        decreases tokens@.len() - idx, 1int,
    {
        let ghost m0 = node_model(*old(self));
        let ghost dv = tokens.deep_view();
        proof {
            assert(dv.len() == tokens@.len());
            assert(m0.children == children_models(old(self).children@));
        }
        if tokens.len() == 0 || idx >= max_node_depth - 1 || idx >= tokens.len() - 1 {
            self.cluster_ids.push(cluster_id);
            proof {
                assert(node_model(*self).children == children_models(self.children@));
                assert(node_model(*self).cluster_ids =~= m0.cluster_ids.push(cluster_id as int));
            }
        } else {
            proof {
                assert(dv[idx as int] == tokens@[idx as int]@);
            }
            match find_child_pos(&self.children, tokens[idx].as_str()) {
                Some(k) => {
                    proof {
                        lemma_find_child_idx(m0.children, dv[idx as int]);
                    }
                    let (key, mut child) = self.children.remove(k);
                    child.add_cluster_at(cluster_id, tokens, idx + 1, max_node_depth, max_children,
                        parametrize_numeric_tokens);
                    let ghost cf = child;
                    self.children.insert(k, (key, child));
                    proof {
                        assert(self.children@ =~= old(self).children@.update(
                            k as int,
                            (key, cf),
                        ));
                        assert(children_models(self.children@) =~= m0.children.update(
                            k as int,
                            (dv[idx as int], node_model(cf)),
                        ));
                        assert(node_model(*self).children == children_models(self.children@));
                        assert(node_model(*self).cluster_ids =~= m0.cluster_ids);
                    }
                },
                None => {
                    let numeric = parametrize_numeric_tokens && str_has_digit(tokens[idx].as_str());
                    let fits = max_children > 0 && self.children.len() < max_children - 1;
                    if !numeric && fits {
                        let key = tokens[idx].clone();
                        let mut child = Node::new();
                        child.add_cluster_at(cluster_id, tokens, idx + 1, max_node_depth,
                            max_children, parametrize_numeric_tokens);
                        let ghost cf = child;
                        self.children.push((key, child));
                        proof {
                            assert(self.children@ =~= old(self).children@.push((key, cf)));
                            assert(children_models(self.children@) =~= m0.children.push(
                                (dv[idx as int], node_model(cf)),
                            ));
                            assert(node_model(*self).children == children_models(self.children@));
                            assert(node_model(*self).cluster_ids =~= m0.cluster_ids);
                        }
                    } else {
                        self.descend_wildcard(cluster_id, tokens, idx, max_node_depth,
                            max_children, parametrize_numeric_tokens);
                    }
                },
            }
        }
    }

    /// Routes the insertion through the wildcard child, creating it first
    /// when absent.
    fn descend_wildcard(
        &mut self,
        cluster_id: usize,
        tokens: &Vec<String>,
        idx: usize,
        max_node_depth: usize,
        max_children: usize,
        parametrize_numeric_tokens: bool,
    )
        requires
            max_node_depth >= 1,
            idx + 1 < tokens@.len(),
        ensures
            node_model(*final(self)) == (NodeModel {
                wildcard: Some(
                    Box::new(
                        node_insert(
                            wildcard_of(node_model(*old(self))),
                            tokens.deep_view(),
                            idx + 1,
                            max_node_depth as int,
                            max_children as int,
                            parametrize_numeric_tokens,
                            cluster_id as int,
                        ),
                    ),
                ),
                ..node_model(*old(self))
            }),
        decreases tokens@.len() - idx, 0int,
    {
        let ghost m0 = node_model(*old(self));
        let n: usize = tokens.len();
        proof {
            assert(idx + 1 < n);
        }
        let mut wc: Option<Box<Node>> = None;
        core::mem::swap(&mut self.wildcard_child, &mut wc);
        let mut w: Box<Node> = match wc {
            Some(b) => b,
            None => Box::new(Node::new()),
        };
        proof {
            assert(node_model(*w) == wildcard_of(m0));
        }
        w.add_cluster_at(cluster_id, tokens, idx + 1, max_node_depth, max_children,
            parametrize_numeric_tokens);
        let ghost wnew = *w;
        self.wildcard_child = Some(w);
        proof {
            assert(node_model(*self).wildcard == Some(Box::new(node_model(wnew))));
            assert(self.children@ == old(self).children@);
            assert(node_model(*self).children == children_models(self.children@));
            assert(m0.children == children_models(old(self).children@));
            assert(node_model(*self).cluster_ids =~= m0.cluster_ids);
        }
    }
}

impl Node {
    /// A mutable borrow of the literal child keyed by `token`.
    pub fn get_child_mut(&mut self, token: &str) -> (r: Option<&mut Node>)
        ensures
            ({
                let k = find_child_idx(children_models(old(self).children@), token@);
                match r {
                    Some(c) => k != -1 && *c == old(self).children@[k].1 && final(self).children@
                        == old(self).children@.update(
                        k,
                        (old(self).children@[k].0, *final(c)),
                    ) && final(self).wildcard_child == old(self).wildcard_child && final(self).cluster_ids@ == old(self).cluster_ids@,
                    None => k == -1 && *final(self) == *old(self),
                }
            }),
    {
        proof {
            lemma_find_child_idx(children_models(self.children@), token@);
        }
        match find_child_pos(&self.children, token) {
            Some(k) => Some(&mut self.children[k].1),
            None => None,
        }
    }

    /// A mutable borrow of the literal child keyed by `token`, created
    /// empty (and appended after the existing children) when absent.
    pub fn get_or_insert_child(&mut self, token: &str) -> (r: &mut Node)
        ensures
            ({
                let k = find_child_idx(children_models(old(self).children@), token@);
                &&& final(self).wildcard_child == old(self).wildcard_child
                &&& final(self).cluster_ids@ == old(self).cluster_ids@
                &&& if k != -1 {
                    *r == old(self).children@[k].1 && final(self).children@ == old(self).children@.update(k, (old(self).children@[k].0, *final(r)))
                } else {
                    node_model(*r) == empty_node() && final(self).children@.len() == old(self).children@.len() + 1 && final(self).children@ == old(self).children@.push(
                        (final(self).children@[old(self).children@.len() as int].0, *final(r)),
                    ) && final(self).children@[old(self).children@.len() as int].0@ == token@
                }
            }),
    {
        proof {
            lemma_find_child_idx(children_models(self.children@), token@);
        }
        match find_child_pos(&self.children, token) {
            Some(k) => &mut self.children[k].1,
            None => {
                let tc = crate::text::str_chars(token);
                let key = crate::text::chars_string(&tc);
                self.children.push((key, Node::new()));
                let n = self.children.len();
                &mut self.children[n - 1].1
            },
        }
    }

    /// A mutable borrow of the wildcard child, created empty when absent.
    pub fn get_or_insert_wildcard(&mut self) -> (r: &mut Node)
        ensures
            old(self).wildcard_child matches Some(b) ==> *r == *b,
            old(self).wildcard_child is None ==> node_model(*r) == empty_node(),
            final(self).wildcard_child == Some(Box::new(*final(r))),
            final(self).children@ == old(self).children@,
            final(self).cluster_ids@ == old(self).cluster_ids@,
    {
        if self.wildcard_child.is_none() {
            self.wildcard_child = Some(Box::new(Node::new()));
        }
        match &mut self.wildcard_child {
            Some(b) => &mut **b,
            None => vstd::pervasive::unreached(),
        }
    }

    /// A mutable borrow of the wildcard child, when one exists.
    pub fn get_wildcard_mut(&mut self) -> (r: Option<&mut Node>)
        ensures
            match r {
                Some(c) => old(self).wildcard_child == Some(Box::new(*c)) && final(self).wildcard_child == Some(Box::new(*final(c))) && final(self).children@ == old(self).children@ && final(self).cluster_ids@ == old(self).cluster_ids@,
                None => old(self).wildcard_child is None && *final(self) == *old(self),
            },
    {
        match &mut self.wildcard_child {
            Some(b) => Some(&mut **b),
            None => None,
        }
    }
}

impl Node {
    /// A human-readable rendering of the subtree, for inspection: one line
    /// per node, indented by depth, then up to `max_clusters` of the
    /// clusters attached at each node, resolved against the cluster table.
    /// The text is a debugging aid; no particular format is promised.
    pub fn print(
        &self,
        token: &str,
        depth: usize,
        max_clusters: usize,
        clusters: &Vec<LogCluster>,
    ) -> String
        decreases *self,
    {
        let mut out: Vec<char> = Vec::new();
        push_tabs(&mut out, depth);
        if depth == 0 || (depth == 1 && !str_all_digits(token)) {
            out.push('<');
            push_str_chars(&mut out, token);
            out.push('>');
        } else if depth == 1 {
            out.push('<');
            out.push('L');
            out.push('=');
            push_str_chars(&mut out, token);
            out.push('>');
        } else {
            out.push('"');
            push_str_chars(&mut out, token);
            out.push('"');
        }
        if self.cluster_ids.len() > 0 {
            push_str_chars(&mut out, " (cluster_count=");
            crate::text::push_decimal(&mut out, self.cluster_ids.len());
            out.push(')');
        }
        out.push('\n');
        let next_depth = if depth < usize::MAX {
            depth + 1
        } else {
            depth
        };
        let mut j: usize = 0;
        while j < self.children.len()
            decreases self.children@.len() - j,
        {
            let child_text = self.children[j].1.print(
                self.children[j].0.as_str(),
                next_depth,
                max_clusters,
                clusters,
            );
            push_str_chars(&mut out, child_text.as_str());
            j = j + 1;
        }
        match &self.wildcard_child {
            Some(b) => {
                let child_text = (&**b).print("*", next_depth, max_clusters, clusters);
                push_str_chars(&mut out, child_text.as_str());
            },
            None => {},
        }
        let shown = if max_clusters <= self.cluster_ids.len() {
            max_clusters
        } else {
            self.cluster_ids.len()
        };
        let mut c: usize = 0;
        while c < shown
            invariant
                shown <= self.cluster_ids@.len(),
            decreases shown - c,
        {
            let id = self.cluster_ids[c];
            push_tabs(&mut out, next_depth);
            out.push('\t');
            push_str_chars(&mut out, "ID=");
            crate::text::push_decimal(&mut out, id);
            if 1 <= id && id <= clusters.len() {
                let cl = &clusters[id - 1];
                push_str_chars(&mut out, " : size=");
                crate::text::push_decimal(&mut out, cl.size);
                push_str_chars(&mut out, ": ");
                let template = cl.get_template();
                push_str_chars(&mut out, template.as_str());
            }
            out.push('\n');
            c = c + 1;
        }
        crate::text::chars_string(&out)
    }
}

/// Appends `depth` tab characters.
fn push_tabs(out: &mut Vec<char>, depth: usize) {
    let mut t: usize = 0;
    while t < depth
        decreases depth - t,
    {
        out.push('\t');
        t = t + 1;
    }
}

/// Appends the characters of a string slice.
fn push_str_chars(out: &mut Vec<char>, s: &str) {
    let cs = crate::text::str_chars(s);
    crate::text::push_all(out, &cs);
}

/// Every character is an ASCII digit.
fn str_all_digits(s: &str) -> bool {
    let n = s.unicode_len();
    let mut i: usize = 0;
    while i < n
        invariant
            n == s@.len(),
        decreases n - i,
    {
        let u = s.get_char(i) as u32;
        if !(0x30 <= u && u <= 0x39) {
            return false;
        }
        i = i + 1;
    }
    true
}

/// Two unequal token sequences of one length differ at some position.
proof fn lemma_unequal_index(a: Seq<Seq<char>>, b: Seq<Seq<char>>)
    requires
        a.len() == b.len(),
        a != b,
    ensures
        exists|j: int| 0 <= j < a.len() && a[j] != b[j],
{
    if forall|j: int| 0 <= j < a.len() ==> a[j] == b[j] {
        assert(a =~= b);
    }
}

} // verus!
