//! The snapshot payload: a plain-text rendering of the whole engine state —
//! configuration, placeholder scheme, cluster table, counters and the
//! partitioned prefix tree — handed to the persistence collaborator as
//! bytes. Strings are length-prefixed, so the rendering is unambiguous and
//! the full state could be rebuilt from it.

use vstd::prelude::*;
use vstd::string::*;
use vstd::utf8::encode_utf8;
use crate::cluster::Node;
use crate::cluster::children_models;
use crate::cluster::node_model;
use crate::drain::Drain;
use crate::drain::DrainModel;
use crate::model::ClusterModel;
use crate::model::NodeModel;
use crate::text::chars_string;
use crate::text::dec_digits;
use crate::text::push_all;
use crate::text::push_decimal;
use crate::text::str_chars;

verus! {

/// A string field: its length in characters, a colon, the characters.
pub open spec fn field_text(s: Seq<char>) -> Seq<char> {
    dec_digits(s.len()) + seq![':'] + s
}

/// Token fields, each preceded by a space.
pub open spec fn tokens_text(ts: Seq<Seq<char>>) -> Seq<char>
    decreases ts.len(),
{
    if ts.len() == 0 {
        Seq::empty()
    } else {
        seq![' '] + field_text(ts[0]) + tokens_text(ts.drop_first())
    }
}

/// One line of the cluster table: identifier, size, token count, and the
/// tokens as fields.
pub open spec fn snapshot_line(c: ClusterModel) -> Seq<char> {
    dec_digits(c.cluster_id as nat) + seq![' '] + dec_digits(c.size as nat) + seq![' ']
        + dec_digits(c.tokens.len()) + tokens_text(c.tokens) + seq!['\n']
}

/// The cluster lines, in identifier order.
pub open spec fn snapshot_lines(clusters: Seq<ClusterModel>) -> Seq<char>
    decreases clusters.len(),
{
    if clusters.len() == 0 {
        Seq::empty()
    } else {
        snapshot_line(clusters[0]) + snapshot_lines(clusters.drop_first())
    }
}

/// Identifiers, each preceded by a space.
pub open spec fn ids_text(ids: Seq<int>) -> Seq<char>
    decreases ids.len(),
{
    if ids.len() == 0 {
        Seq::empty()
    } else {
        seq![' '] + dec_digits(ids[0] as nat) + ids_text(ids.drop_first())
    }
}

/// A subtree: the attached identifiers, the literal children in order, and
/// the wildcard child.
pub open spec fn node_text(n: NodeModel) -> Seq<char>
    decreases n, 0int,
{
    seq!['('] + dec_digits(n.cluster_ids.len()) + ids_text(n.cluster_ids) + seq![' ']
        + dec_digits(n.children.len()) + children_text(n.children, 0) + (match n.wildcard {
        Some(b) => seq![' ', 'w'] + node_text(*b),
        None => seq![' ', '-'],
    }) + seq![')']
}

pub open spec fn children_text(cs: Seq<(Seq<char>, NodeModel)>, i: int) -> Seq<char>
    decreases cs, cs.len() - i,
{
    if i < 0 || i >= cs.len() {
        Seq::empty()
    } else {
        seq![' '] + field_text(cs[i].0) + seq![' '] + node_text(cs[i].1) + children_text(cs, i + 1)
    }
}

/// The length partitions, one line each: the token-count key and the
/// partition's tree.
pub open spec fn partitions_text(ps: Seq<(int, NodeModel)>, i: int) -> Seq<char>
    decreases ps.len() - i,
{
    if i < 0 || i >= ps.len() {
        Seq::empty()
    } else {
        dec_digits(ps[i].0 as nat) + seq![' '] + node_text(ps[i].1) + seq!['\n'] + partitions_text(
            ps,
            i + 1,
        )
    }
}

/// The whole snapshot: a header with the clustering parameters, the
/// placeholder scheme and the extra delimiters, then the cluster table with
/// the mint counter, then the tree.
pub open spec fn snapshot_text(d: DrainModel) -> Seq<char> {
    seq!['d', 'r', 'a', 'i', 'n', '\n'] + dec_digits(d.depth as nat) + seq![' '] + dec_digits(
        d.max_children as nat,
    ) + seq![' '] + dec_digits(d.sim_num as nat) + seq![' '] + dec_digits(d.sim_den as nat) + seq![
        ' ',
    ] + seq![if d.parametrize_numeric {
        '1'
    } else {
        '0'
    }] + seq!['\n'] + field_text(d.prefix) + seq![' '] + field_text(d.name) + seq![' ']
        + field_text(d.suffix) + seq!['\n'] + dec_digits(d.extra_delimiters.len()) + tokens_text(
        d.extra_delimiters,
    ) + seq!['\n'] + dec_digits(d.clusters.len()) + seq!['\n'] + dec_digits(d.mint_counter as nat)
        + seq!['\n'] + snapshot_lines(d.clusters) + dec_digits(d.partitions.len()) + seq!['\n']
        + partitions_text(d.partitions, 0)
}

/// Appends a length-prefixed string field.
fn push_field(out: &mut Vec<char>, s: &str)
    ensures
        final(out)@ == old(out)@ + field_text(s@),
{
    let cs = str_chars(s);
    push_decimal(out, cs.len());
    out.push(':');
    push_all(out, &cs);
    proof {
        assert(out@ =~= old(out)@ + field_text(s@));
    }
}

/// Appends the tokens of a vector as fields.
fn push_tokens(out: &mut Vec<char>, ts: &Vec<String>)
    ensures
        final(out)@ == old(out)@ + tokens_text(ts.deep_view()),
{
    let ghost dv = ts.deep_view();
    let mut i: usize = 0;
    proof {
        assert(dv.skip(0) =~= dv);
        assert(out@ + tokens_text(dv) =~= old(out)@ + tokens_text(dv));
    }
    while i < ts.len()
        invariant
            i <= ts@.len(),
            dv == ts.deep_view(),
            dv.len() == ts@.len(),
            old(out)@ + tokens_text(dv) == out@ + tokens_text(dv.skip(i as int)),
        decreases ts@.len() - i,
    {
        let ghost ob = out@;
        proof {
            assert(dv.skip(i as int)[0] == dv[i as int]);
            assert(dv.skip(i as int).drop_first() =~= dv.skip(i as int + 1));
            assert(ts@[i as int]@ == dv[i as int]);
        }
        out.push(' ');
        push_field(out, ts[i].as_str());
        i = i + 1;
        proof {
            assert(out@ =~= ob + (seq![' '] + field_text(dv[i - 1])));
            assert(ob + (seq![' '] + field_text(dv[i - 1]) + tokens_text(dv.skip(i as int))) =~= (
            ob + (seq![' '] + field_text(dv[i - 1]))) + tokens_text(dv.skip(i as int)));
        }
    }
    proof {
        assert(tokens_text(dv.skip(dv.len() as int)) =~= Seq::<char>::empty());
        assert(out@ + Seq::<char>::empty() =~= out@);
    }
}

/// Appends a subtree's rendering.
fn push_node(out: &mut Vec<char>, node: &Node)
    ensures
        final(out)@ == old(out)@ + node_text(node_model(*node)),
    decreases *node,
{
    let ghost m = node_model(*node);
    let ghost base = old(out)@;
    proof {
        assert(m.children == children_models(node.children@));
        assert(m.cluster_ids.len() == node.cluster_ids@.len());
    }
    out.push('(');
    push_decimal(out, node.cluster_ids.len());
    let ghost head = out@;
    proof {
        assert(head =~= base + (seq!['('] + dec_digits(m.cluster_ids.len())));
        assert(m.cluster_ids.skip(0) =~= m.cluster_ids);
    }
    let mut i: usize = 0;
    while i < node.cluster_ids.len()
        invariant
            i <= node.cluster_ids@.len(),
            m == node_model(*node),
            m.cluster_ids.len() == node.cluster_ids@.len(),
            head + ids_text(m.cluster_ids) == out@ + ids_text(m.cluster_ids.skip(i as int)),
        decreases node.cluster_ids@.len() - i,
    {
        let ghost ob = out@;
        proof {
            assert(m.cluster_ids.skip(i as int)[0] == m.cluster_ids[i as int]);
            assert(m.cluster_ids.skip(i as int).drop_first() =~= m.cluster_ids.skip(i as int + 1));
            assert(m.cluster_ids[i as int] == node.cluster_ids@[i as int] as int);
        }
        out.push(' ');
        push_decimal(out, node.cluster_ids[i]);
        i = i + 1;
        proof {
            assert(out@ =~= ob + (seq![' '] + dec_digits(m.cluster_ids[i - 1] as nat)));
            assert(ob + (seq![' '] + dec_digits(m.cluster_ids[i - 1] as nat) + ids_text(
                m.cluster_ids.skip(i as int),
            )) =~= (ob + (seq![' '] + dec_digits(m.cluster_ids[i - 1] as nat))) + ids_text(
                m.cluster_ids.skip(i as int),
            ));
        }
    }
    proof {
        assert(ids_text(m.cluster_ids.skip(m.cluster_ids.len() as int)) =~= Seq::<char>::empty());
        assert(out@ + Seq::<char>::empty() =~= out@);
    }
    out.push(' ');
    push_decimal(out, node.children.len());
    let ghost chead = out@;
    proof {
        assert(m.children.len() == node.children@.len());
        assert(chead + children_text(m.children, 0) =~= chead + children_text(m.children, 0));
    }
    let mut j: usize = 0;
    while j < node.children.len()
        invariant
            j <= node.children@.len(),
            m == node_model(*node),
            m.children.len() == node.children@.len(),
            chead + children_text(m.children, 0) == out@ + children_text(m.children, j as int),
        decreases node.children@.len() - j,
    {
        let ghost ob = out@;
        proof {
            assert(m.children == children_models(node.children@));
            assert(m.children[j as int].0 == node.children@[j as int].0@);
            assert(m.children[j as int].1 == node_model(node.children@[j as int].1));
        }
        out.push(' ');
        push_field(out, node.children[j].0.as_str());
        out.push(' ');
        push_node(out, &node.children[j].1);
        j = j + 1;
        proof {
            assert(out@ =~= ob + (seq![' '] + field_text(m.children[j - 1].0) + seq![' ']
                + node_text(m.children[j - 1].1)));
            assert(ob + (seq![' '] + field_text(m.children[j - 1].0) + seq![' '] + node_text(
                m.children[j - 1].1,
            ) + children_text(m.children, j as int)) =~= (ob + (seq![' '] + field_text(
                m.children[j - 1].0,
            ) + seq![' '] + node_text(m.children[j - 1].1))) + children_text(
                m.children,
                j as int,
            ));
        }
    }
    proof {
        assert(children_text(m.children, m.children.len() as int) =~= Seq::<char>::empty());
        assert(out@ + Seq::<char>::empty() =~= out@);
    }
    match &node.wildcard_child {
        Some(b) => {
            proof {
                assert(m.wildcard == Some(Box::new(node_model(**b))));
            }
            out.push(' ');
            out.push('w');
            push_node(out, &**b);
        },
        None => {
            proof {
                assert(m.wildcard is None);
            }
            out.push(' ');
            out.push('-');
        },
    }
    out.push(')');
    proof {
        assert(out@ =~= base + node_text(m));
    }
}

/// The engine state rendered as the snapshot payload, UTF-8 encoded.
#[verifier::rlimit(80)]
pub fn encode_state(drain: &Drain) -> (r: Vec<u8>)
    ensures
        r@ == encode_utf8(snapshot_text(drain@)),
{
    let ghost dm = drain@;
    let ghost cm = dm.clusters;
    let mut out: Vec<char> = Vec::new();
    out.push('d');
    out.push('r');
    out.push('a');
    out.push('i');
    out.push('n');
    out.push('\n');
    push_decimal(&mut out, drain.log_cluster_depth);
    out.push(' ');
    push_decimal(&mut out, drain.max_children);
    out.push(' ');
    push_u64(&mut out, drain.sim_th_num);
    out.push(' ');
    push_u64(&mut out, drain.sim_th_den);
    out.push(' ');
    if drain.parametrize_numeric_tokens {
        out.push('1');
    } else {
        out.push('0');
    }
    out.push('\n');
    push_field(&mut out, drain.scheme.prefix.as_str());
    out.push(' ');
    push_field(&mut out, drain.scheme.name.as_str());
    out.push(' ');
    push_field(&mut out, drain.scheme.suffix.as_str());
    out.push('\n');
    push_decimal(&mut out, drain.extra_delimiters.len());
    push_tokens(&mut out, &drain.extra_delimiters);
    out.push('\n');
    push_decimal(&mut out, drain.clusters.len());
    out.push('\n');
    push_decimal(&mut out, drain.token_template_counter);
    out.push('\n');
    let ghost header = out@;
    proof {
        assert(header =~= seq!['d', 'r', 'a', 'i', 'n', '\n'] + dec_digits(dm.depth as nat)
            + seq![' '] + dec_digits(dm.max_children as nat) + seq![' '] + dec_digits(
            dm.sim_num as nat,
        ) + seq![' '] + dec_digits(dm.sim_den as nat) + seq![' '] + seq![if dm.parametrize_numeric {
            '1'
        } else {
            '0'
        }] + seq!['\n'] + field_text(dm.prefix) + seq![' '] + field_text(dm.name) + seq![' ']
            + field_text(dm.suffix) + seq!['\n'] + dec_digits(dm.extra_delimiters.len())
            + tokens_text(dm.extra_delimiters) + seq!['\n'] + dec_digits(dm.clusters.len())
            + seq!['\n'] + dec_digits(dm.mint_counter as nat) + seq!['\n']);
        assert(cm.skip(0) =~= cm);
        assert(out@ + snapshot_lines(cm) =~= header + snapshot_lines(cm));
    }
    let mut i: usize = 0;
    while i < drain.clusters.len()
        invariant
            i <= drain.clusters@.len(),
            cm == drain@.clusters,
            cm.len() == drain.clusters@.len(),
            header + snapshot_lines(cm) == out@ + snapshot_lines(cm.skip(i as int)),
        decreases drain.clusters@.len() - i,
    {
        let ghost ob = out@;
        proof {
            assert(cm.skip(i as int)[0] == cm[i as int]);
            assert(cm.skip(i as int).drop_first() =~= cm.skip(i as int + 1));
            assert(cm[i as int] == drain.clusters@[i as int]@);
        }
        let c = &drain.clusters[i];
        push_decimal(&mut out, c.cluster_id);
        out.push(' ');
        push_decimal(&mut out, c.size);
        out.push(' ');
        push_decimal(&mut out, c.tokens.len());
        push_tokens(&mut out, &c.tokens);
        out.push('\n');
        i = i + 1;
        proof {
            assert(out@ =~= ob + snapshot_line(cm[i - 1]));
            assert(ob + (snapshot_line(cm[i - 1]) + snapshot_lines(cm.skip(i as int))) =~= (ob
                + snapshot_line(cm[i - 1])) + snapshot_lines(cm.skip(i as int)));
        }
    }
    proof {
        assert(snapshot_lines(cm.skip(cm.len() as int)) =~= Seq::<char>::empty());
        assert(out@ + Seq::<char>::empty() =~= out@);
    }
    push_decimal(&mut out, drain.partitions.len());
    out.push('\n');
    let ghost pm = dm.partitions;
    let ghost phead = out@;
    proof {
        assert(pm.len() == drain.partitions@.len());
        assert(phead + partitions_text(pm, 0) =~= phead + partitions_text(pm, 0));
    }
    let mut p: usize = 0;
    while p < drain.partitions.len()
        invariant
            p <= drain.partitions@.len(),
            pm == drain@.partitions,
            pm.len() == drain.partitions@.len(),
            phead + partitions_text(pm, 0) == out@ + partitions_text(pm, p as int),
        decreases drain.partitions@.len() - p,
    {
        let ghost ob = out@;
        proof {
            assert(pm[p as int].0 == drain.partitions@[p as int].0 as int);
            assert(pm[p as int].1 == node_model(drain.partitions@[p as int].1));
        }
        push_decimal(&mut out, drain.partitions[p].0);
        out.push(' ');
        push_node(&mut out, &drain.partitions[p].1);
        out.push('\n');
        p = p + 1;
        proof {
            assert(out@ =~= ob + (dec_digits(pm[p - 1].0 as nat) + seq![' '] + node_text(
                pm[p - 1].1,
            ) + seq!['\n']));
            assert(ob + (dec_digits(pm[p - 1].0 as nat) + seq![' '] + node_text(pm[p - 1].1)
                + seq!['\n'] + partitions_text(pm, p as int)) =~= (ob + (dec_digits(
                pm[p - 1].0 as nat,
            ) + seq![' '] + node_text(pm[p - 1].1) + seq!['\n'])) + partitions_text(pm, p as int));
        }
    }
    proof {
        assert(partitions_text(pm, pm.len() as int) =~= Seq::<char>::empty());
        assert(out@ + Seq::<char>::empty() =~= out@);
        assert(out@ =~= snapshot_text(dm));
    }
    let text = chars_string(&out);
    text.as_str().as_bytes_vec()
}

/// Appends the decimal rendering of a 64-bit value.
fn push_u64(out: &mut Vec<char>, n: u64)
    ensures
        final(out)@ == old(out)@ + dec_digits(n as nat),
    decreases n,
{
    if n < 10 {
        let d: usize = (n % 10) as usize;
        push_decimal(out, d);
    } else {
        push_u64(out, n / 10);
        let d: usize = (n % 10) as usize;
        push_decimal(out, d);
        proof {
            assert(out@ =~= old(out)@ + dec_digits(n as nat));
        }
    }
}

} // verus!
