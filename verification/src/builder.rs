//! Graph construction: indexes an ordered node set by name, resolves every
//! input and parameter reference, rejects duplicates, dangling references and
//! dependency cycles, and instantiates the pass arena with a dependency-first
//! ranking.

use vstd::prelude::*;

verus! {

use crate::error::BuildError;
use crate::nodes::NodeEntry;
use crate::nodes::NodeConfig;
use crate::nodes::input_refs;
use crate::nodes::param_refs;
use crate::nodes::is_renderable;
use crate::graph::RenderPass;
use crate::graph::PassKind;
use crate::graph::TextSource;
use crate::nodes::BlendInput;
use crate::params::NodeParameter;
use crate::params::ResolvedParameter;
use crate::params::link_of;
use crate::graph::Graph;
use crate::nodes::TextConfig;
use crate::nodes::ShaderConfig;
use crate::nodes::BlendConfig;
use crate::nodes::FpsConfig;
use crate::nodes::opt_ref;
use crate::graph::Attachment;
use crate::graph::kind_ok;
use crate::uniforms::UniformValue;
use crate::uniforms::SamplerRef;

/// No two entries share a name.
pub open spec fn unique_names(entries: Seq<NodeEntry>) -> bool {
    forall|i: int, j: int|
        0 <= i < j < entries.len() ==> #[trigger] entries[i].name@ != #[trigger] entries[j].name@
}

/// Some entry carries the given name.
pub open spec fn has_name(entries: Seq<NodeEntry>, nm: Seq<char>) -> bool {
    exists|j: int| 0 <= j < entries.len() && #[trigger] entries[j].name@ == nm
}

/// The index of the entry with the given name (meaningful under
/// `unique_names` and `has_name`).
pub open spec fn index_of_name(entries: Seq<NodeEntry>, nm: Seq<char>) -> int {
    choose|j: int| 0 <= j < entries.len() && #[trigger] entries[j].name@ == nm
}

/// Every name an entry samples as an input exists in the node set.
pub open spec fn inputs_resolve(entries: Seq<NodeEntry>) -> bool {
    forall|i: int, k: int|
        0 <= i < entries.len() && 0 <= k < input_refs(entries[i].config).len() ==> has_name(
            entries,
            #[trigger] input_refs(entries[i].config)[k],
        )
}

/// Every name an entry's parameters link to exists in the node set.
pub open spec fn params_resolve(entries: Seq<NodeEntry>) -> bool {
    forall|i: int, k: int|
        0 <= i < entries.len() && 0 <= k < param_refs(entries[i].config).len() ==> has_name(
            entries,
            #[trigger] param_refs(entries[i].config)[k],
        )
}

/// Entry `i` samples entry `j` as an input.
pub open spec fn dep_edge(entries: Seq<NodeEntry>, i: int, j: int) -> bool {
    &&& 0 <= i < entries.len()
    &&& 0 <= j < entries.len()
    &&& input_refs(entries[i].config).contains(entries[j].name@)
}

/// A nonempty set of entries each of which samples another member: the
/// witness that the dependency graph has a cycle (every member is either on a
/// cycle or stuck behind one, and a cycle is always such a set).
pub open spec fn closed_dep_set(entries: Seq<NodeEntry>, s: Set<int>) -> bool {
    &&& exists|i: int| s.contains(i)
    &&& forall|i: int| #[trigger]
        s.contains(i) ==> 0 <= i < entries.len() && exists|j: int|
            s.contains(j) && dep_edge(entries, i, j)
}

/// The dependency graph of the node set has a reference cycle.
pub open spec fn has_cycle(entries: Seq<NodeEntry>) -> bool {
    exists|s: Set<int>| closed_dep_set(entries, s)
}

/// Everything `build` demands of a node set.
pub open spec fn buildable(entries: Seq<NodeEntry>) -> bool {
    &&& unique_names(entries)
    &&& inputs_resolve(entries)
    &&& params_resolve(entries)
    &&& !has_cycle(entries)
}

/// How many of the first `upto` entries become render passes.
pub open spec fn renderable_count(entries: Seq<NodeEntry>, upto: int) -> int
    decreases upto,
{
    if upto <= 0 {
        0
    } else {
        renderable_count(entries, upto - 1) + if is_renderable(entries[upto - 1].config) {
            1int
        } else {
            0int
        }
    }
}

/// How many of the first `upto` entries are image attachments.
pub open spec fn image_count(entries: Seq<NodeEntry>, upto: int) -> int
    decreases upto,
{
    if upto <= 0 {
        0
    } else {
        image_count(entries, upto - 1) + if entries[upto - 1].config is Image {
            1int
        } else {
            0int
        }
    }
}

/// A vector of indices equals a spec-level index sequence.
pub open spec fn seq_matches(v: Seq<usize>, s: Seq<int>) -> bool {
    v.len() == s.len() && forall|k: int| 0 <= k < s.len() ==> #[trigger] v[k] == s[k]
}

/// The attachment list a pass gets from the given input references: the image
/// targets, in order, as attachment-arena indices.
pub open spec fn expected_atts(entries: Seq<NodeEntry>, refs: Seq<Seq<char>>) -> Seq<int>
    decreases refs.len(),
{
    if refs.len() == 0 {
        Seq::empty()
    } else {
        let init = expected_atts(entries, refs.drop_last());
        let t = index_of_name(entries, refs.last());
        if entries[t].config is Image {
            init.push(image_count(entries, t))
        } else {
            init
        }
    }
}

/// The dependency list a pass gets from the given input references: the
/// renderable targets, in order, as pass-arena indices.
pub open spec fn expected_deps(entries: Seq<NodeEntry>, refs: Seq<Seq<char>>) -> Seq<int>
    decreases refs.len(),
{
    if refs.len() == 0 {
        Seq::empty()
    } else {
        let init = expected_deps(entries, refs.drop_last());
        let t = index_of_name(entries, refs.last());
        if entries[t].config is Image {
            init
        } else {
            init.push(renderable_count(entries, t))
        }
    }
}

/// Counts below a prefix bound never exceed the prefix length, and grow by at
/// most one per entry.
pub proof fn lemma_count_bounds(entries: Seq<NodeEntry>, upto: int)
    requires
        0 <= upto <= entries.len(),
    ensures
        0 <= renderable_count(entries, upto) <= upto,
        0 <= image_count(entries, upto) <= upto,
        renderable_count(entries, upto) + image_count(entries, upto) == upto,
    decreases upto,
{
    if upto > 0 {
        lemma_count_bounds(entries, upto - 1);
    }
}

/// Counting is monotonic, and strictly so across an entry of the counted
/// kind.
pub proof fn lemma_count_monotonic(entries: Seq<NodeEntry>, a: int, b: int)
    requires
        0 <= a <= b <= entries.len(),
    ensures
        renderable_count(entries, a) <= renderable_count(entries, b),
        image_count(entries, a) <= image_count(entries, b),
        a < b && is_renderable(entries[a].config) ==> renderable_count(entries, a)
            < renderable_count(entries, b),
        a < b && entries[a].config is Image ==> image_count(entries, a) < image_count(entries, b),
    decreases b - a,
{
    if a < b {
        lemma_count_monotonic(entries, a + 1, b);
    }
}

/// How many entries of a boolean sequence are set.
pub open spec fn count_true(s: Seq<bool>) -> int
    decreases s.len(),
{
    if s.len() == 0 {
        0
    } else {
        count_true(s.drop_last()) + if s.last() {
            1int
        } else {
            0int
        }
    }
}

pub proof fn lemma_count_true_bounds(s: Seq<bool>)
    ensures
        0 <= count_true(s) <= s.len(),
        count_true(s) == s.len() ==> forall|i: int| 0 <= i < s.len() ==> s[i],
        count_true(s) < s.len() ==> exists|i: int| 0 <= i < s.len() && !s[i],
    decreases s.len(),
{
    if s.len() > 0 {
        lemma_count_true_bounds(s.drop_last());
        if count_true(s) == s.len() {
            assert forall|i: int| 0 <= i < s.len() implies s[i] by {
                if i < s.len() - 1 {
                    assert(s.drop_last()[i] == s[i]);
                }
            }
        }
        if count_true(s) < s.len() {
            if !s.last() {
                assert(!s[s.len() - 1]);
            } else {
                let i = choose|i: int| 0 <= i < s.drop_last().len() && !s.drop_last()[i];
                assert(!s[i]);
            }
        }
    }
}

/// Updating one flag from false to true raises the count by one.
pub proof fn lemma_count_true_update(s: Seq<bool>, i: int)
    requires
        0 <= i < s.len(),
        !s[i],
    ensures
        count_true(s.update(i, true)) == count_true(s) + 1,
    decreases s.len(),
{
    let t = s.update(i, true);
    if i == s.len() - 1 {
        assert(t.drop_last() =~= s.drop_last());
    } else {
        assert(t.drop_last() =~= s.drop_last().update(i, true));
        lemma_count_true_update(s.drop_last(), i);
    }
}

/// Check the node set for a duplicated name.
fn check_duplicates(entries: &Vec<NodeEntry>) -> (r: Option<String>)
    ensures
        r is None <==> unique_names(entries@),
        r matches Some(nm) ==> exists|i: int, j: int|
            0 <= i < j < entries@.len() && #[trigger] entries@[i].name@ == nm@
                && #[trigger] entries@[j].name@ == nm@,
{
    let n = entries.len();
    let mut i: usize = 0;
    while i < n
        invariant
            n == entries@.len(),
            i <= n,
            forall|a: int, b: int|
                0 <= a < i && a < b < n ==> #[trigger] entries@[a].name@ != #[trigger] entries@[b].name@,
        decreases n - i,
    {
        let mut j: usize = i + 1;
        while j < n
            invariant
                n == entries@.len(),
                i < n,
                i < j <= n,
                forall|b: int| i < b < j ==> entries@[i as int].name@ != #[trigger] entries@[b].name@,
            decreases n - j,
        {
            if entries[i].name == entries[j].name {
                return Some(entries[i].name.clone());
            }
            j += 1;
        }
        i += 1;
    }
    None
}

/// Find the entry with the given name.
fn find_node(entries: &Vec<NodeEntry>, nm: &String) -> (r: Option<usize>)
    ensures
        r matches Some(j) ==> j < entries@.len() && entries@[j as int].name@ == nm@,
        r is None ==> !has_name(entries@, nm@),
{
    let n = entries.len();
    let mut j: usize = 0;
    while j < n
        invariant
            n == entries@.len(),
            j <= n,
            forall|b: int| 0 <= b < j ==> #[trigger] entries@[b].name@ != nm@,
        decreases n - j,
    {
        if entries[j].name == *nm {
            return Some(j);
        }
        j += 1;
    }
    None
}

/// Under unique names, the index found for an entry's name is that entry.
pub proof fn lemma_index_of_name_unique(entries: Seq<NodeEntry>, j: int)
    requires
        unique_names(entries),
        0 <= j < entries.len(),
    ensures
        index_of_name(entries, entries[j].name@) == j,
{
    let nm = entries[j].name@;
    assert(entries[j].name@ == nm);
    let t = index_of_name(entries, nm);
    assert(0 <= t < entries.len() && entries[t].name@ == nm);
    if t < j {
        assert(entries[t].name@ != entries[j].name@);
    } else if t > j {
        assert(entries[j].name@ != entries[t].name@);
    }
}

/// Per-entry arena offsets: entry `i`, if renderable, becomes pass
/// `renderable_count(i)`; if an image, attachment `image_count(i)`.
fn compute_offsets(entries: &Vec<NodeEntry>) -> (r: (Vec<usize>, Vec<usize>))
    ensures
        r.0@.len() == entries@.len(),
        r.1@.len() == entries@.len(),
        forall|i: int|
            0 <= i < entries@.len() ==> #[trigger] r.0@[i] == renderable_count(entries@, i),
        forall|i: int| 0 <= i < entries@.len() ==> #[trigger] r.1@[i] == image_count(entries@, i),
{
    let n = entries.len();
    let mut pass_of: Vec<usize> = Vec::new();
    let mut att_of: Vec<usize> = Vec::new();
    let mut rc: usize = 0;
    let mut ic: usize = 0;
    let mut i: usize = 0;
    while i < n
        invariant
            n == entries@.len(),
            i <= n,
            pass_of@.len() == i,
            att_of@.len() == i,
            rc == renderable_count(entries@, i as int),
            ic == image_count(entries@, i as int),
            forall|a: int| 0 <= a < i ==> #[trigger] pass_of@[a] == renderable_count(entries@, a),
            forall|a: int| 0 <= a < i ==> #[trigger] att_of@[a] == image_count(entries@, a),
        decreases n - i,
    {
        proof {
            lemma_count_bounds(entries@, i as int);
        }
        pass_of.push(rc);
        att_of.push(ic);
        match entries[i].config {
            NodeConfig::Image(_) => {
                ic += 1;
            },
            _ => {
                rc += 1;
            },
        }
        i += 1;
    }
    (pass_of, att_of)
}

/// Resolve one entry's ordered input names into attachment and dependency
/// index lists.
fn resolve_inputs(
    entries: &Vec<NodeEntry>,
    pass_of: &Vec<usize>,
    att_of: &Vec<usize>,
    names: &Vec<String>,
) -> (r: Result<(Vec<usize>, Vec<usize>), BuildError>)
    requires
        unique_names(entries@),
        pass_of@.len() == entries@.len(),
        att_of@.len() == entries@.len(),
        forall|i: int|
            0 <= i < entries@.len() ==> #[trigger] pass_of@[i] == renderable_count(entries@, i),
        forall|i: int| 0 <= i < entries@.len() ==> #[trigger] att_of@[i] == image_count(entries@, i),
    ensures
        r matches Ok(ad) ==> {
            let refs = names@.map_values(|s: String| s@);
            &&& seq_matches(ad.0@, expected_atts(entries@, refs))
            &&& seq_matches(ad.1@, expected_deps(entries@, refs))
            &&& forall|k: int| 0 <= k < refs.len() ==> has_name(entries@, #[trigger] refs[k])
        },
        r matches Err(e) ==> (e matches BuildError::ResolutionError(nm) && !has_name(entries@, nm@)
            && names@.map_values(|s: String| s@).contains(nm@)),
{
    let ghost refs = names@.map_values(|s: String| s@);
    let n_names = names.len();
    let mut atts: Vec<usize> = Vec::new();
    let mut deps: Vec<usize> = Vec::new();
    let mut k: usize = 0;
    while k < n_names
        invariant
            unique_names(entries@),
            pass_of@.len() == entries@.len(),
            att_of@.len() == entries@.len(),
            forall|i: int|
                0 <= i < entries@.len() ==> #[trigger] pass_of@[i] == renderable_count(entries@, i),
            forall|i: int|
                0 <= i < entries@.len() ==> #[trigger] att_of@[i] == image_count(entries@, i),
            refs == names@.map_values(|s: String| s@),
            n_names == names@.len(),
            k <= n_names,
            seq_matches(atts@, expected_atts(entries@, refs.take(k as int))),
            seq_matches(deps@, expected_deps(entries@, refs.take(k as int))),
            forall|kk: int| 0 <= kk < k ==> has_name(entries@, #[trigger] refs[kk]),
        decreases n_names - k,
    {
        match find_node(entries, &names[k]) {
            None => {
                proof {
                    assert(refs[k as int] == names@[k as int]@);
                }
                return Err(BuildError::ResolutionError(names[k].clone()));
            },
            Some(t) => {
                proof {
                    lemma_index_of_name_unique(entries@, t as int);
                    assert(refs[k as int] == names@[k as int]@);
                    assert(refs.take(k + 1).drop_last() =~= refs.take(k as int));
                    assert(refs.take(k + 1).last() == refs[k as int]);
                    assert(index_of_name(entries@, refs[k as int]) == t);
                }
                match entries[t].config {
                    NodeConfig::Image(_) => {
                        atts.push(att_of[t]);
                    },
                    _ => {
                        deps.push(pass_of[t]);
                    },
                }
            },
        }
        k += 1;
    }
    proof {
        assert(refs.take(n_names as int) =~= refs);
    }
    Ok((atts, deps))
}

/// What a parameter resolves to at build time: a literal stays itself, a link
/// becomes the index of its target node.
pub open spec fn spec_resolve_param<T>(entries: Seq<NodeEntry>, p: NodeParameter<T>) -> ResolvedParameter<T> {
    match p {
        NodeParameter::Static(v) => ResolvedParameter::Static(v),
        NodeParameter::NodeConnection(nm) => ResolvedParameter::Link(
            index_of_name(entries, nm@) as usize,
        ),
    }
}

/// Resolve a parameter's link against the node set; a missing target is a
/// broken link.
fn resolve_param<T: Copy>(entries: &Vec<NodeEntry>, p: &NodeParameter<T>) -> (r: Result<
    ResolvedParameter<T>,
    BuildError,
>)
    requires
        unique_names(entries@),
    ensures
        r matches Ok(rp) ==> rp == spec_resolve_param(entries@, *p),
        r matches Err(e) ==> (e matches BuildError::BrokenLink(nm) && link_of(*p) == Some(nm@)
            && !has_name(entries@, nm@)),
        r is Ok <==> (link_of(*p) matches Some(nm) ==> has_name(entries@, nm)),
{
    match p {
        NodeParameter::Static(v) => Ok(ResolvedParameter::Static(*v)),
        NodeParameter::NodeConnection(nm) => match find_node(entries, nm) {
            Some(t) => {
                proof {
                    lemma_index_of_name_unique(entries@, t as int);
                }
                Ok(ResolvedParameter::Link(t))
            },
            None => Err(BuildError::BrokenLink(nm.clone())),
        },
    }
}

/// The built text source matches the configured text parameter.
pub open spec fn text_corresponds(
    entries: Seq<NodeEntry>,
    p: NodeParameter<String>,
    t: TextSource,
) -> bool {
    match p {
        NodeParameter::Static(s) => t matches TextSource::Static(u) && u@ == s@,
        NodeParameter::NodeConnection(nm) => t == TextSource::Node(
            index_of_name(entries, nm@) as usize,
        ),
    }
}

/// Resolve a text parameter: a literal is copied, a link becomes a live
/// node-output source.
fn resolve_text(entries: &Vec<NodeEntry>, p: &NodeParameter<String>) -> (r: Result<
    TextSource,
    BuildError,
>)
    requires
        unique_names(entries@),
    ensures
        r matches Ok(ts) ==> text_corresponds(entries@, *p, ts),
        r matches Err(e) ==> (e matches BuildError::BrokenLink(nm) && link_of(*p) == Some(nm@)
            && !has_name(entries@, nm@)),
        r is Ok <==> (link_of(*p) matches Some(nm) ==> has_name(entries@, nm)),
{
    match p {
        NodeParameter::Static(s) => Ok(TextSource::Static(s.clone())),
        NodeParameter::NodeConnection(nm) => match find_node(entries, nm) {
            Some(t) => {
                proof {
                    lemma_index_of_name_unique(entries@, t as int);
                }
                Ok(TextSource::Node(t))
            },
            None => Err(BuildError::BrokenLink(nm.clone())),
        },
    }
}

/// The built pass kind matches the entry's configuration, with every
/// parameter resolved and every literal carried over unchanged.
pub open spec fn kind_corresponds(entries: Seq<NodeEntry>, c: NodeConfig, k: PassKind) -> bool {
    match c {
        NodeConfig::Image(_) => false,
        NodeConfig::Shader(s) => k matches PassKind::Shader { vertex, fragment } && vertex@
            == s.vertex@ && fragment@ == s.fragment@,
        NodeConfig::Blend(b) => k matches PassKind::Blend { operation, alphas } && operation
            == b.operation && alphas@ == b.inputs@.map_values(|bi: BlendInput| bi.alpha),
        NodeConfig::Text(t) => k matches PassKind::Text {
            text,
            position,
            color,
            font_name,
            font_size,
        } && text_corresponds(entries, t.text, text) && position == spec_resolve_param(
            entries,
            t.position,
        ) && color == spec_resolve_param(entries, t.color) && font_name@ == t.font_name@
            && font_size == t.font_size,
        NodeConfig::Fps(f) => k matches PassKind::Fps {
            position,
            color,
            font_name,
            font_size,
            interval_ms,
        } && position == f.position && color == spec_resolve_param(entries, f.color) && font_name@
            == f.font_name@ && font_size == f.font_size && interval_ms == f.interval_ms,
    }
}

/// Every dependency index stays inside the arena.
pub open spec fn deps_bounded(passes: Seq<RenderPass>) -> bool {
    forall|p: int, k: int|
        0 <= p < passes.len() && 0 <= k < passes[p].depends@.len() ==> #[trigger] passes[p].depends@[k]
            < passes.len()
}

/// An index sequence holds the given value.
pub open spec fn seq_has_index(s: Seq<usize>, q: int) -> bool {
    exists|k: int| 0 <= k < s.len() && s[k] == q
}

/// A nonempty set of passes each of which depends on another member: none of
/// them can be placed in any dependency-first order.
pub open spec fn pass_closed_set(passes: Seq<RenderPass>, s: Set<int>) -> bool {
    &&& exists|p: int| s.contains(p)
    &&& forall|p: int| #[trigger]
        s.contains(p) ==> 0 <= p < passes.len() && exists|q: int|
            s.contains(q) && seq_has_index(passes[p].depends@, q)
}

/// The set of pass indices a stuck list denotes.
pub open spec fn stuck_index_set(stuck: Seq<usize>) -> Set<int> {
    Set::new(|p: int| exists|m: int| 0 <= m < stuck.len() && stuck[m] == p)
}

/// The invariant of the placement scan: `placed_count` counts the placed
/// flags, placed passes have ranks below the count, and every placed pass's
/// dependencies are placed with strictly smaller ranks.
pub open spec fn topo_inv(
    passes: Seq<RenderPass>,
    placed: Seq<bool>,
    rank: Seq<usize>,
    placed_count: int,
) -> bool {
    &&& placed.len() == passes.len()
    &&& rank.len() == passes.len()
    &&& placed_count == count_true(placed)
    &&& forall|p: int| 0 <= p < passes.len() && #[trigger] placed[p] ==> rank[p] < placed_count
    &&& forall|p: int, k: int|
        0 <= p < passes.len() && placed[p] && 0 <= k < passes[p].depends@.len() ==> {
            let d = #[trigger] passes[p].depends@[k];
            placed[d as int] && rank[d as int] < rank[p]
        }
}

/// Compute a dependency-first ranking of the passes, or the stuck passes if
/// the dependency graph has a cycle.
#[verifier::rlimit(60)]
#[verifier::spinoff_prover]
fn topo_rank(passes: &Vec<RenderPass>) -> (r: Result<Vec<usize>, Vec<usize>>)
    requires
        deps_bounded(passes@),
    ensures
        r matches Ok(rank) ==> {
            &&& rank@.len() == passes@.len()
            &&& forall|p: int| 0 <= p < passes@.len() ==> #[trigger] rank@[p] < passes@.len()
            &&& forall|p: int, kk: int|
                0 <= p < passes@.len() && 0 <= kk < passes@[p].depends@.len() ==> rank@[(
                #[trigger] passes@[p].depends@[kk]) as int] < rank@[p]
        },
        r matches Err(stuck) ==> {
            &&& stuck@.len() > 0
            &&& forall|m: int| 0 <= m < stuck@.len() ==> #[trigger] stuck@[m] < passes@.len()
            &&& pass_closed_set(passes@, stuck_index_set(stuck@))
        },
{
    let np = passes.len();
    let mut placed: Vec<bool> = vec![false; np];
    let mut rank: Vec<usize> = vec![0; np];
    let mut placed_count: usize = 0;
    proof {
        lemma_count_true_all_false(placed@);
    }
    let mut again = true;
    while again
        invariant
            np == passes@.len(),
            deps_bounded(passes@),
            topo_inv(passes@, placed@, rank@, placed_count as int),
            placed_count <= np,
            !again ==> forall|p: int|
                0 <= p < np && !(#[trigger] placed@[p]) ==> exists|k: int|
                    0 <= k < passes@[p].depends@.len() && !placed@[passes@[p].depends@[k] as int],
        decreases 2 * np - 2 * placed_count + if again {
            1int
        } else {
            0int
        },
    {
        let ghost pc0 = placed_count as int;
        let mut progress = false;
        let mut p: usize = 0;
        while p < np
            invariant
                np == passes@.len(),
                deps_bounded(passes@),
                topo_inv(passes@, placed@, rank@, placed_count as int),
                placed_count <= np,
                p <= np,
                placed_count >= pc0,
                progress ==> placed_count >= pc0 + 1,
                !progress ==> forall|q: int|
                    0 <= q < p && !(#[trigger] placed@[q]) ==> exists|k: int|
                        0 <= k < passes@[q].depends@.len() && !placed@[passes@[q].depends@[k] as int],
            decreases np - p,
        {
            if !placed[p] {
                let deps_len = passes[p].depends.len();
                let mut all = true;
                let mut k: usize = 0;
                while k < deps_len
                    invariant
                        np == passes@.len(),
                        deps_bounded(passes@),
                        p < np,
                        deps_len == passes@[p as int].depends@.len(),
                        placed@.len() == np,
                        k <= deps_len,
                        all <==> forall|kk: int|
                            0 <= kk < k ==> placed@[(#[trigger] passes@[p as int].depends@[kk]) as int],
                    decreases deps_len - k,
                {
                    if !placed[passes[p].depends[k]] {
                        all = false;
                    }
                    k += 1;
                }
                if all {
                    proof {
                        lemma_count_true_update(placed@, p as int);
                        lemma_count_true_bounds(placed@);
                    }
                    rank[p] = placed_count;
                    placed[p] = true;
                    placed_count += 1;
                    progress = true;
                }
            }
            p += 1;
        }
        again = progress;
    }
    if placed_count == np {
        proof {
            lemma_count_true_bounds(placed@);
            assert forall|p: int| 0 <= p < passes@.len() implies #[trigger] rank@[p]
                < passes@.len() by {
                assert(placed@[p]);
            }
            assert forall|p: int, kk: int|
                0 <= p < passes@.len() && 0 <= kk < passes@[p].depends@.len() implies rank@[(
            #[trigger] passes@[p].depends@[kk]) as int] < rank@[p] by {
                assert(placed@[p]);
            }
        }
        Ok(rank)
    } else {
        proof {
            lemma_count_true_bounds(placed@);
        }
        let mut stuck: Vec<usize> = Vec::new();
        let mut p: usize = 0;
        while p < np
            invariant
                np == passes@.len(),
                placed@.len() == np,
                p <= np,
                forall|m: int|
                    0 <= m < stuck@.len() ==> #[trigger] stuck@[m] < np && !placed@[stuck@[m] as int],
                forall|q: int|
                    0 <= q < p && !(#[trigger] placed@[q]) ==> exists|m: int|
                        0 <= m < stuck@.len() && stuck@[m] == q,
            decreases np - p,
        {
            if !placed[p] {
                let ghost old_stuck = stuck@;
                stuck.push(p);
                proof {
                    assert forall|q: int|
                        0 <= q < p + 1 && !(#[trigger] placed@[q]) implies exists|m: int|
                            0 <= m < stuck@.len() && stuck@[m] == q by {
                        if q < p {
                            let m = choose|m: int| 0 <= m < old_stuck.len() && old_stuck[m] == q;
                            assert(stuck@[m] == q);
                        } else {
                            assert(stuck@[stuck@.len() - 1] == q);
                        }
                    }
                }
            }
            p += 1;
        }
        proof {
            let i0 = choose|i: int| 0 <= i < placed@.len() && !placed@[i];
            assert(exists|m: int| 0 <= m < stuck@.len() && stuck@[m] == i0);
            let s = stuck_index_set(stuck@);
            assert(s.contains(i0));
            assert forall|q: int| #[trigger]
                s.contains(q) implies 0 <= q < passes@.len() && exists|w: int|
                s.contains(w) && seq_has_index(passes@[q].depends@, w) by {
                let m = choose|m: int| 0 <= m < stuck@.len() && stuck@[m] == q;
                assert(stuck@[m] < np && !placed@[stuck@[m] as int]);
                assert(!placed@[q]);
                assert(exists|k: int|
                    0 <= k < passes@[q].depends@.len() && !placed@[passes@[q].depends@[k] as int]);
                let k = choose|k: int|
                    0 <= k < passes@[q].depends@.len() && !placed@[passes@[q].depends@[k] as int];
                let d = passes@[q].depends@[k];
                assert(d < np && !placed@[d as int]);
                assert(exists|m2: int| 0 <= m2 < stuck@.len() && stuck@[m2] == d as int);
                assert(s.contains(d as int));
                assert(passes@[q].depends@[k] == d);
                assert(seq_has_index(passes@[q].depends@, d as int));
            }
        }
        Err(stuck)
    }
}

/// A node with an input edge is a pass of its own.
pub proof fn lemma_edge_source_renderable(c: NodeConfig)
    requires
        input_refs(c).len() > 0,
    ensures
        is_renderable(c),
{
    if c is Image {
        assert(input_refs(c).len() == 0);
    }
}

/// The dependency list built from a reference list carries the pass index of
/// every renderable target named in it.
pub proof fn lemma_expected_deps_contains(entries: Seq<NodeEntry>, refs: Seq<Seq<char>>, j: int)
    requires
        unique_names(entries),
        0 <= j < entries.len(),
        is_renderable(entries[j].config),
        refs.contains(entries[j].name@),
    ensures
        expected_deps(entries, refs).contains(renderable_count(entries, j)),
    decreases refs.len(),
{
    let nm = entries[j].name@;
    lemma_index_of_name_unique(entries, j);
    let e = expected_deps(entries, refs);
    if refs.last() == nm {
        assert(index_of_name(entries, refs.last()) == j);
        assert(e == expected_deps(entries, refs.drop_last()).push(renderable_count(entries, j)));
        assert(e[e.len() - 1] == renderable_count(entries, j));
        assert(e.contains(renderable_count(entries, j)));
    } else {
        let k = choose|k: int| 0 <= k < refs.len() && refs[k] == nm;
        assert(k < refs.len() - 1);
        assert(refs.drop_last()[k] == nm);
        assert(refs.drop_last().contains(nm));
        lemma_expected_deps_contains(entries, refs.drop_last(), j);
        let init = expected_deps(entries, refs.drop_last());
        let kk = choose|kk: int| 0 <= kk < init.len() && init[kk] == renderable_count(entries, j);
        assert(e[kk] == init[kk]);
        assert(e.contains(renderable_count(entries, j)));
    }
}

/// Every member of a built dependency list is the pass index of a renderable
/// target named in the reference list.
pub proof fn lemma_expected_deps_member(entries: Seq<NodeEntry>, refs: Seq<Seq<char>>, d: int)
    requires
        unique_names(entries),
        forall|k: int| 0 <= k < refs.len() ==> has_name(entries, #[trigger] refs[k]),
        expected_deps(entries, refs).contains(d),
    ensures
        exists|j: int|
            0 <= j < entries.len() && is_renderable(#[trigger] entries[j].config)
                && renderable_count(entries, j) == d && refs.contains(entries[j].name@),
    decreases refs.len(),
{
    if refs.len() == 0 {
        assert(expected_deps(entries, refs).len() == 0);
    } else {
        let t = index_of_name(entries, refs.last());
        assert(has_name(entries, refs.last()));
        assert(0 <= t < entries.len() && entries[t].name@ == refs.last());
        let init = expected_deps(entries, refs.drop_last());
        assert(forall|k: int|
            0 <= k < refs.drop_last().len() ==> has_name(entries, #[trigger] refs.drop_last()[k]));
        if entries[t].config is Image {
            lemma_expected_deps_member(entries, refs.drop_last(), d);
            let j = choose|j: int|
                0 <= j < entries.len() && is_renderable(#[trigger] entries[j].config)
                    && renderable_count(entries, j) == d && refs.drop_last().contains(
                    entries[j].name@,
                );
            let k = choose|k: int|
                0 <= k < refs.drop_last().len() && refs.drop_last()[k] == entries[j].name@;
            assert(refs[k] == entries[j].name@);
            assert(refs.contains(entries[j].name@));
        } else {
            let e = expected_deps(entries, refs);
            assert(e == init.push(renderable_count(entries, t)));
            let m = choose|m: int| 0 <= m < e.len() && e[m] == d;
            if m == e.len() - 1 {
                assert(renderable_count(entries, t) == d);
                assert(refs.contains(entries[t].name@)) by {
                    assert(refs[refs.len() - 1] == entries[t].name@);
                }
            } else {
                assert(init[m] == d);
                assert(init.contains(d));
                lemma_expected_deps_member(entries, refs.drop_last(), d);
                let j = choose|j: int|
                    0 <= j < entries.len() && is_renderable(#[trigger] entries[j].config)
                        && renderable_count(entries, j) == d && refs.drop_last().contains(
                        entries[j].name@,
                    );
                let k = choose|k: int|
                    0 <= k < refs.drop_last().len() && refs.drop_last()[k] == entries[j].name@;
                assert(refs[k] == entries[j].name@);
                assert(refs.contains(entries[j].name@));
            }
        }
    }
}

/// Every member of a built attachment list is a valid attachment index.
pub proof fn lemma_expected_atts_member(entries: Seq<NodeEntry>, refs: Seq<Seq<char>>, d: int)
    requires
        unique_names(entries),
        forall|k: int| 0 <= k < refs.len() ==> has_name(entries, #[trigger] refs[k]),
        expected_atts(entries, refs).contains(d),
    ensures
        0 <= d < image_count(entries, entries.len() as int),
    decreases refs.len(),
{
    if refs.len() == 0 {
        assert(expected_atts(entries, refs).len() == 0);
    } else {
        let t = index_of_name(entries, refs.last());
        assert(has_name(entries, refs.last()));
        assert(0 <= t < entries.len() && entries[t].name@ == refs.last());
        let init = expected_atts(entries, refs.drop_last());
        assert(forall|k: int|
            0 <= k < refs.drop_last().len() ==> has_name(entries, #[trigger] refs.drop_last()[k]));
        if entries[t].config is Image {
            let e = expected_atts(entries, refs);
            assert(e == init.push(image_count(entries, t)));
            let m = choose|m: int| 0 <= m < e.len() && e[m] == d;
            if m == e.len() - 1 {
                lemma_count_bounds(entries, t);
                lemma_count_monotonic(entries, t, entries.len() as int);
            } else {
                assert(init.contains(d));
                lemma_expected_atts_member(entries, refs.drop_last(), d);
            }
        } else {
            lemma_expected_atts_member(entries, refs.drop_last(), d);
        }
    }
}

/// Every pass index below the total has a renderable entry it came from.
pub proof fn lemma_pass_entry_exists(entries: Seq<NodeEntry>, p: int, upto: int)
    requires
        0 <= upto <= entries.len(),
        0 <= p < renderable_count(entries, upto),
    ensures
        exists|i: int|
            0 <= i < upto && is_renderable(#[trigger] entries[i].config) && renderable_count(
                entries,
                i,
            ) == p,
    decreases upto,
{
    lemma_count_bounds(entries, upto);
    if is_renderable(entries[upto - 1].config) && renderable_count(entries, upto - 1) == p {
        assert(0 <= upto - 1 < upto && is_renderable(entries[upto - 1].config) && renderable_count(
            entries,
            upto - 1,
        ) == p);
    } else {
        lemma_pass_entry_exists(entries, p, upto - 1);
    }
}

/// An all-false flag sequence counts zero.
pub proof fn lemma_count_true_all_false(s: Seq<bool>)
    requires
        forall|i: int| 0 <= i < s.len() ==> !s[i],
    ensures
        count_true(s) == 0,
    decreases s.len(),
{
    if s.len() > 0 {
        lemma_count_true_all_false(s.drop_last());
    }
}

/// Pass `x` is sampled at some scan position before `(q, k)`.
pub open spec fn consumed_before(passes: Seq<RenderPass>, x: int, q: int, k: int) -> bool {
    exists|q2: int, k2: int|
        0 <= q2 < passes.len() && 0 <= k2 < passes[q2].depends@.len() && (q2 < q || (q2 == q && k2
            < k)) && #[trigger] passes[q2].depends@[k2] == x
}

/// Advancing the scan by one position adds exactly that position's sample.
proof fn lemma_consumed_step(passes: Seq<RenderPass>, x: int, q: int, k: int)
    requires
        0 <= q < passes.len(),
        0 <= k < passes[q].depends@.len(),
    ensures
        consumed_before(passes, x, q, k + 1) <==> (consumed_before(passes, x, q, k)
            || passes[q].depends@[k] == x),
{
    if consumed_before(passes, x, q, k + 1) {
        let (q2, k2): (int, int) = choose|q2: int, k2: int|
            0 <= q2 < passes.len() && 0 <= k2 < passes[q2].depends@.len() && (q2 < q || (q2 == q
                && k2 < k + 1)) && #[trigger] passes[q2].depends@[k2] == x;
        if q2 == q && k2 == k {
            assert(passes[q].depends@[k] == x);
        } else {
            assert(consumed_before(passes, x, q, k));
        }
    }
    if consumed_before(passes, x, q, k) {
        let (q2, k2): (int, int) = choose|q2: int, k2: int|
            0 <= q2 < passes.len() && 0 <= k2 < passes[q2].depends@.len() && (q2 < q || (q2 == q
                && k2 < k)) && #[trigger] passes[q2].depends@[k2] == x;
        assert(consumed_before(passes, x, q, k + 1));
    }
    if passes[q].depends@[k] == x {
        assert(consumed_before(passes, x, q, k + 1));
    }
}

/// Finishing a pass's dependency row lands the scan at the next pass.
proof fn lemma_consumed_row_end(passes: Seq<RenderPass>, x: int, q: int)
    requires
        0 <= q < passes.len(),
    ensures
        consumed_before(passes, x, q, passes[q].depends@.len() as int) <==> consumed_before(
            passes,
            x,
            q + 1,
            0,
        ),
{
    let dl = passes[q].depends@.len() as int;
    if consumed_before(passes, x, q, dl) {
        let (q2, k2): (int, int) = choose|q2: int, k2: int|
            0 <= q2 < passes.len() && 0 <= k2 < passes[q2].depends@.len() && (q2 < q || (q2 == q
                && k2 < dl)) && #[trigger] passes[q2].depends@[k2] == x;
        assert(consumed_before(passes, x, q + 1, 0));
    }
    if consumed_before(passes, x, q + 1, 0) {
        let (q2, k2): (int, int) = choose|q2: int, k2: int|
            0 <= q2 < passes.len() && 0 <= k2 < passes[q2].depends@.len() && (q2 < q + 1 || (q2 == q
                + 1 && k2 < 0)) && #[trigger] passes[q2].depends@[k2] == x;
        assert(consumed_before(passes, x, q, dl));
    }
}

/// Mark the terminal passes: those no other pass samples. They render to the
/// visible surface.
#[verifier::spinoff_prover]
fn mark_terminals(passes: &Vec<RenderPass>) -> (r: Vec<bool>)
    requires
        deps_bounded(passes@),
    ensures
        r@.len() == passes@.len(),
        forall|p: int|
            0 <= p < passes@.len() ==> ((#[trigger] r@[p]) <==> !exists|q: int, k: int|
                0 <= q < passes@.len() && 0 <= k < passes@[q].depends@.len()
                    && #[trigger] passes@[q].depends@[k] == p),
{
    let np = passes.len();
    let mut consumed: Vec<bool> = vec![false; np];
    let mut q: usize = 0;
    while q < np
        invariant
            np == passes@.len(),
            deps_bounded(passes@),
            consumed@.len() == np,
            q <= np,
            forall|x: int|
                0 <= x < np ==> ((#[trigger] consumed@[x]) <==> consumed_before(
                    passes@,
                    x,
                    q as int,
                    0,
                )),
        decreases np - q,
    {
        let dl = passes[q].depends.len();
        let mut k: usize = 0;
        while k < dl
            invariant
                np == passes@.len(),
                deps_bounded(passes@),
                consumed@.len() == np,
                q < np,
                k <= dl,
                dl == passes@[q as int].depends@.len(),
                forall|x: int|
                    0 <= x < np ==> ((#[trigger] consumed@[x]) <==> consumed_before(
                        passes@,
                        x,
                        q as int,
                        k as int,
                    )),
            decreases dl - k,
        {
            let d = passes[q].depends[k];
            consumed[d] = true;
            proof {
                assert forall|x: int| 0 <= x < np implies ((#[trigger] consumed@[x])
                    <==> consumed_before(passes@, x, q as int, k + 1)) by {
                    lemma_consumed_step(passes@, x, q as int, k as int);
                }
            }
            k += 1;
        }
        proof {
            assert forall|x: int| 0 <= x < np implies ((#[trigger] consumed@[x]) <==> consumed_before(
                passes@,
                x,
                q + 1,
                0,
            )) by {
                lemma_consumed_row_end(passes@, x, q as int);
            }
        }
        q += 1;
    }
    let mut terminal: Vec<bool> = Vec::new();
    let mut p: usize = 0;
    while p < np
        invariant
            np == passes@.len(),
            consumed@.len() == np,
            p <= np,
            terminal@.len() == p,
            forall|x: int| 0 <= x < p ==> #[trigger] terminal@[x] == !consumed@[x],
        decreases np - p,
    {
        terminal.push(!consumed[p]);
        p += 1;
    }
    proof {
        assert forall|x: int| 0 <= x < np implies ((#[trigger] terminal@[x]) <==> !exists|
            q2: int,
            k2: int,
        |
            0 <= q2 < passes@.len() && 0 <= k2 < passes@[q2].depends@.len()
                && #[trigger] passes@[q2].depends@[k2] == x) by {
            if consumed_before(passes@, x, np as int, 0) {
                let (q2, k2): (int, int) = choose|q2: int, k2: int|
                    0 <= q2 < passes@.len() && 0 <= k2 < passes@[q2].depends@.len() && (q2 < np || (
                    q2 == np && k2 < 0)) && #[trigger] passes@[q2].depends@[k2] == x;
                assert(passes@[q2].depends@[k2] == x);
            }
            if exists|q2: int, k2: int|
                0 <= q2 < passes@.len() && 0 <= k2 < passes@[q2].depends@.len()
                    && #[trigger] passes@[q2].depends@[k2] == x {
                let (q2, k2): (int, int) = choose|q2: int, k2: int|
                    0 <= q2 < passes@.len() && 0 <= k2 < passes@[q2].depends@.len()
                        && #[trigger] passes@[q2].depends@[k2] == x;
                assert(consumed_before(passes@, x, np as int, 0));
            }
        }
    }
    terminal
}

/// The sampler through which a node's output is read: images are attachment
/// textures, every other node renders to its own pass texture.
pub open spec fn expected_output(entries: Seq<NodeEntry>, i: int) -> UniformValue {
    if entries[i].config is Image {
        UniformValue::Sampler(SamplerRef::Attachment(image_count(entries, i) as usize))
    } else {
        UniformValue::Sampler(SamplerRef::PassTexture(renderable_count(entries, i) as usize))
    }
}

/// The built pass for entry `i`: same name, the requested target size, the
/// resolved kind, and exactly the attachment and dependency lists the entry's
/// input references denote.
pub open spec fn pass_corresponds(
    entries: Seq<NodeEntry>,
    i: int,
    pass: RenderPass,
    width: u32,
    height: u32,
) -> bool {
    &&& pass.name@ == entries[i].name@
    &&& pass.width == width
    &&& pass.height == height
    &&& kind_corresponds(entries, entries[i].config, pass.kind)
    &&& seq_matches(pass.attachments@, expected_atts(entries, input_refs(entries[i].config)))
    &&& seq_matches(pass.depends@, expected_deps(entries, input_refs(entries[i].config)))
}

/// Everything a successful build promises about the graph it returns.
pub open spec fn graph_corresponds(
    entries: Seq<NodeEntry>,
    g: Graph,
    width: u32,
    height: u32,
) -> bool {
    &&& g.wf()
    &&& g.passes@.len() == renderable_count(entries, entries.len() as int)
    &&& g.attachments@.len() == image_count(entries, entries.len() as int)
    &&& g.outputs@.len() == entries.len()
    &&& forall|i: int| 0 <= i < entries.len() ==> #[trigger] g.outputs@[i] == expected_output(entries, i)
    &&& forall|i: int|
        0 <= i < entries.len() ==> ((#[trigger] entries[i].config) matches NodeConfig::Image(im)
            ==> {
            let a = g.attachments@[image_count(entries, i)];
            a.name@ == entries[i].name@ && a.path@ == im.path@
        })
    &&& forall|i: int|
        0 <= i < entries.len() && is_renderable(#[trigger] entries[i].config) ==> pass_corresponds(
            entries,
            i,
            g.passes@[renderable_count(entries, i)],
            width,
            height,
        )
}

/// What each build error says about the node set it was returned for.
pub open spec fn build_error_cause(entries: Seq<NodeEntry>, e: BuildError) -> bool {
    match e {
        BuildError::DuplicateName(nm) => !unique_names(entries) && (exists|i: int, j: int|
            0 <= i < j < entries.len() && #[trigger] entries[i].name@ == nm@
                && #[trigger] entries[j].name@ == nm@),
        BuildError::ResolutionError(nm) => !has_name(entries, nm@) && (exists|i: int|
            0 <= i < entries.len() && input_refs(#[trigger] entries[i].config).contains(nm@)),
        BuildError::BrokenLink(nm) => !has_name(entries, nm@) && (exists|i: int|
            0 <= i < entries.len() && param_refs(#[trigger] entries[i].config).contains(nm@)),
        BuildError::CycleError(nms) => has_cycle(entries) && nms@.len() > 0 && (forall|m: int|
            0 <= m < nms@.len() ==> has_name(entries, #[trigger] nms@[m]@)),
    }
}

/// All parameter references of a text node resolve once each link does.
proof fn lemma_text_params_resolve(entries: Seq<NodeEntry>, t: TextConfig)
    requires
        (link_of(t.text) matches Some(nm) ==> has_name(entries, nm)),
        (link_of(t.position) matches Some(nm) ==> has_name(entries, nm)),
        (link_of(t.color) matches Some(nm) ==> has_name(entries, nm)),
    ensures
        forall|k: int|
            0 <= k < param_refs(NodeConfig::Text(t)).len() ==> has_name(
                entries,
                #[trigger] param_refs(NodeConfig::Text(t))[k],
            ),
{
    let a = opt_ref(link_of(t.text));
    let b = opt_ref(link_of(t.position));
    let c = opt_ref(link_of(t.color));
    assert forall|k: int| 0 <= k < param_refs(NodeConfig::Text(t)).len() implies has_name(
        entries,
        #[trigger] param_refs(NodeConfig::Text(t))[k],
    ) by {
        if k < a.len() {
            assert(param_refs(NodeConfig::Text(t))[k] == a[0]);
        } else if k < a.len() + b.len() {
            assert(param_refs(NodeConfig::Text(t))[k] == b[0]);
        } else {
            assert(param_refs(NodeConfig::Text(t))[k] == c[k - a.len() - b.len()]);
        }
    }
}

/// Each renderable entry's pass lists exactly the dependency indices its
/// input references denote.
pub open spec fn deps_match(entries: Seq<NodeEntry>, passes: Seq<RenderPass>, i: int) -> bool {
    seq_matches(
        passes[renderable_count(entries, i)].depends@,
        expected_deps(entries, input_refs(entries[i].config)),
    )
}

/// Each renderable entry's pass carries the entry's name.
pub open spec fn pass_named(entries: Seq<NodeEntry>, passes: Seq<RenderPass>, i: int) -> bool {
    passes[renderable_count(entries, i)].name@ == entries[i].name@
}

/// In a ranked arena, every member of a closed dependency set of entries
/// would need an arbitrarily large rank for its pass.
#[verifier::spinoff_prover]
#[verifier::rlimit(100)]
proof fn lemma_entry_closed_rank_bound(
    entries: Seq<NodeEntry>,
    passes: Seq<RenderPass>,
    rank: Seq<usize>,
    se: Set<int>,
    k: nat,
)
    requires
        unique_names(entries),
        inputs_resolve(entries),
        passes.len() == renderable_count(entries, entries.len() as int),
        forall|i: int|
            0 <= i < entries.len() && is_renderable(entries[i].config) ==> #[trigger] deps_match(
                entries,
                passes,
                i,
            ),
        rank.len() == passes.len(),
        forall|p: int, kk: int|
            0 <= p < passes.len() && 0 <= kk < passes[p].depends@.len() ==> rank[(
            #[trigger] passes[p].depends@[kk]) as int] < rank[p],
        forall|i: int| #[trigger]
            se.contains(i) ==> 0 <= i < entries.len() && exists|j: int|
                se.contains(j) && dep_edge(entries, i, j),
    ensures
        forall|i: int| #[trigger]
            se.contains(i) ==> is_renderable(entries[i].config) && rank[renderable_count(
                entries,
                i,
            )] >= k,
    decreases k,
{
    if k > 0 {
        lemma_entry_closed_rank_bound(entries, passes, rank, se, (k - 1) as nat);
    }
    assert forall|i: int| #[trigger] se.contains(i) implies is_renderable(entries[i].config)
        && rank[renderable_count(entries, i)] >= k by {
        lemma_closed_member_step(entries, passes, rank, se, i, k);
    }
}

/// One step of the rank induction: a member whose fellow members already
/// carry rank at least `k - 1` carries rank at least `k`.
#[verifier::spinoff_prover]
#[verifier::rlimit(100)]
proof fn lemma_closed_member_step(
    entries: Seq<NodeEntry>,
    passes: Seq<RenderPass>,
    rank: Seq<usize>,
    se: Set<int>,
    i: int,
    k: nat,
)
    requires
        unique_names(entries),
        inputs_resolve(entries),
        passes.len() == renderable_count(entries, entries.len() as int),
        forall|x: int|
            0 <= x < entries.len() && is_renderable(entries[x].config) ==> #[trigger] deps_match(
                entries,
                passes,
                x,
            ),
        rank.len() == passes.len(),
        forall|p: int, kk: int|
            0 <= p < passes.len() && 0 <= kk < passes[p].depends@.len() ==> rank[(
            #[trigger] passes[p].depends@[kk]) as int] < rank[p],
        forall|x: int| #[trigger]
            se.contains(x) ==> 0 <= x < entries.len() && exists|j: int|
                se.contains(j) && dep_edge(entries, x, j),
        k > 0 ==> forall|x: int| #[trigger]
            se.contains(x) ==> is_renderable(entries[x].config) && rank[renderable_count(
                entries,
                x,
            )] >= k - 1,
        se.contains(i),
    ensures
        is_renderable(entries[i].config),
        rank[renderable_count(entries, i)] >= k,
{
    let n = entries.len() as int;
    let j = choose|j: int| se.contains(j) && dep_edge(entries, i, j);
    assert(input_refs(entries[i].config).contains(entries[j].name@));
    assert(input_refs(entries[i].config).len() > 0);
    lemma_edge_source_renderable(entries[i].config);
    if k > 0 {
        let jj = choose|jj: int| se.contains(jj) && dep_edge(entries, j, jj);
        assert(input_refs(entries[j].config).len() > 0);
        lemma_edge_source_renderable(entries[j].config);
        let p = renderable_count(entries, i);
        let w = renderable_count(entries, j);
        lemma_count_bounds(entries, i);
        lemma_count_monotonic(entries, i, n);
        assert(0 <= p < passes.len());
        let refs = input_refs(entries[i].config);
        lemma_expected_deps_contains(entries, refs, j);
        let exp = expected_deps(entries, refs);
        let kk = choose|kk: int| 0 <= kk < exp.len() && exp[kk] == w;
        assert(deps_match(entries, passes, i));
        assert(passes[p].depends@[kk] == w);
        assert(rank[w] < rank[p]);
        assert(rank[w] >= (k - 1) as nat);
    }
}

/// A dependency-first ranking of the built arena refutes every closed
/// dependency set of the node set.
#[verifier::spinoff_prover]
#[verifier::rlimit(100)]
proof fn lemma_ranked_acyclic(entries: Seq<NodeEntry>, passes: Seq<RenderPass>, rank: Seq<usize>)
    requires
        unique_names(entries),
        inputs_resolve(entries),
        passes.len() == renderable_count(entries, entries.len() as int),
        forall|i: int|
            0 <= i < entries.len() && is_renderable(entries[i].config) ==> #[trigger] deps_match(
                entries,
                passes,
                i,
            ),
        rank.len() == passes.len(),
        forall|p: int| 0 <= p < passes.len() ==> #[trigger] rank[p] < passes.len(),
        forall|p: int, kk: int|
            0 <= p < passes.len() && 0 <= kk < passes[p].depends@.len() ==> rank[(
            #[trigger] passes[p].depends@[kk]) as int] < rank[p],
    ensures
        !has_cycle(entries),
{
    let n = entries.len() as int;
    let np = passes.len() as int;
    if has_cycle(entries) {
        let se = choose|se: Set<int>| closed_dep_set(entries, se);
        lemma_entry_closed_rank_bound(entries, passes, rank, se, (np + 1) as nat);
        let i0 = choose|i: int| se.contains(i);
        assert(se.contains(i0));
        assert(is_renderable(entries[i0].config) && rank[renderable_count(entries, i0)] >= np + 1);
        lemma_count_bounds(entries, i0);
        lemma_count_monotonic(entries, i0, n);
        assert(0 <= renderable_count(entries, i0) < np);
    }
}

/// Extending the arenas preserves every already-built entry's correspondence.
proof fn lemma_prefix_preserved(
    entries: Seq<NodeEntry>,
    i: int,
    old_passes: Seq<RenderPass>,
    old_atts: Seq<Attachment>,
    passes: Seq<RenderPass>,
    atts: Seq<Attachment>,
    width: u32,
    height: u32,
)
    requires
        0 <= i <= entries.len(),
        old_passes.len() == renderable_count(entries, i),
        old_atts.len() == image_count(entries, i),
        old_passes.len() <= passes.len(),
        old_atts.len() <= atts.len(),
        forall|x: int| 0 <= x < old_passes.len() ==> #[trigger] passes[x] == old_passes[x],
        forall|x: int| 0 <= x < old_atts.len() ==> #[trigger] atts[x] == old_atts[x],
        forall|a: int|
            0 <= a < i && is_renderable(#[trigger] entries[a].config) ==> pass_corresponds(
                entries,
                a,
                old_passes[renderable_count(entries, a)],
                width,
                height,
            ),
        forall|a: int|
            0 <= a < i ==> ((#[trigger] entries[a].config) matches NodeConfig::Image(im) ==> {
                let at = old_atts[image_count(entries, a)];
                at.name@ == entries[a].name@ && at.path@ == im.path@
            }),
    ensures
        forall|a: int|
            0 <= a < i && is_renderable(#[trigger] entries[a].config) ==> pass_corresponds(
                entries,
                a,
                passes[renderable_count(entries, a)],
                width,
                height,
            ),
        forall|a: int|
            0 <= a < i ==> ((#[trigger] entries[a].config) matches NodeConfig::Image(im) ==> {
                let at = atts[image_count(entries, a)];
                at.name@ == entries[a].name@ && at.path@ == im.path@
            }),
{
    assert forall|a: int|
        0 <= a < i && is_renderable(#[trigger] entries[a].config) implies pass_corresponds(
        entries,
        a,
        passes[renderable_count(entries, a)],
        width,
        height,
    ) by {
        lemma_count_monotonic(entries, a, i);
        lemma_count_bounds(entries, a);
        assert(passes[renderable_count(entries, a)] == old_passes[renderable_count(entries, a)]);
    }
    assert forall|a: int| 0 <= a < i implies ((#[trigger] entries[a].config) matches
        NodeConfig::Image(im) ==> {
        let at = atts[image_count(entries, a)];
        at.name@ == entries[a].name@ && at.path@ == im.path@
    }) by {
        lemma_count_monotonic(entries, a, i);
        lemma_count_bounds(entries, a);
        if entries[a].config is Image {
            assert(atts[image_count(entries, a)] == old_atts[image_count(entries, a)]);
        }
    }
}

/// The offset tables match the entry counts.
pub open spec fn offsets_ok(
    entries: Seq<NodeEntry>,
    pass_of: Seq<usize>,
    att_of: Seq<usize>,
) -> bool {
    &&& pass_of.len() == entries.len()
    &&& att_of.len() == entries.len()
    &&& forall|a: int|
        0 <= a < entries.len() ==> #[trigger] pass_of[a] == renderable_count(entries, a)
    &&& forall|a: int| 0 <= a < entries.len() ==> #[trigger] att_of[a] == image_count(entries, a)
}

/// All of entry `i`'s input and parameter references resolve.
pub open spec fn entry_resolves(entries: Seq<NodeEntry>, i: int) -> bool {
    &&& forall|k: int|
        0 <= k < input_refs(entries[i].config).len() ==> has_name(
            entries,
            #[trigger] input_refs(entries[i].config)[k],
        )
    &&& forall|k: int|
        0 <= k < param_refs(entries[i].config).len() ==> has_name(
            entries,
            #[trigger] param_refs(entries[i].config)[k],
        )
}

/// Build the pass for a shader entry.
fn build_shader_pass(
    entries: &Vec<NodeEntry>,
    i: usize,
    sc: &ShaderConfig,
    pass_of: &Vec<usize>,
    att_of: &Vec<usize>,
    width: u32,
    height: u32,
) -> (r: Result<RenderPass, BuildError>)
    requires
        unique_names(entries@),
        i < entries@.len(),
        entries@[i as int].config == NodeConfig::Shader(*sc),
        offsets_ok(entries@, pass_of@, att_of@),
    ensures
        r matches Ok(pass) ==> pass_corresponds(entries@, i as int, pass, width, height)
            && entry_resolves(entries@, i as int),
        r matches Err(e) ==> build_error_cause(entries@, e) && !buildable(entries@),
{
    proof {
        assert(input_refs(entries@[i as int].config) =~= sc.inputs@.map_values(|s: String| s@));
    }
    match resolve_inputs(entries, pass_of, att_of, &sc.inputs) {
        Err(e) => {
            proof {
                if let BuildError::ResolutionError(nm) = &e {
                    assert(input_refs(entries@[i as int].config).contains(nm@));
                    if inputs_resolve(entries@) {
                        let refs = input_refs(entries@[i as int].config);
                        let k = choose|k: int| 0 <= k < refs.len() && refs[k] == nm@;
                        assert(has_name(entries@, refs[k]));
                    }
                }
            }
            Err(e)
        },
        Ok((atts, deps)) => Ok(
            RenderPass {
                name: entries[i].name.clone(),
                kind: PassKind::Shader { vertex: sc.vertex.clone(), fragment: sc.fragment.clone() },
                attachments: atts,
                depends: deps,
                width,
                height,
            },
        ),
    }
}

/// Build the pass for a blend entry.
fn build_blend_pass(
    entries: &Vec<NodeEntry>,
    i: usize,
    bc: &BlendConfig,
    pass_of: &Vec<usize>,
    att_of: &Vec<usize>,
    width: u32,
    height: u32,
) -> (r: Result<RenderPass, BuildError>)
    requires
        unique_names(entries@),
        i < entries@.len(),
        entries@[i as int].config == NodeConfig::Blend(*bc),
        offsets_ok(entries@, pass_of@, att_of@),
    ensures
        r matches Ok(pass) ==> pass_corresponds(entries@, i as int, pass, width, height)
            && entry_resolves(entries@, i as int),
        r matches Err(e) ==> build_error_cause(entries@, e) && !buildable(entries@),
{
    let nb = bc.inputs.len();
    let mut bnames: Vec<String> = Vec::new();
    let mut alphas: Vec<i64> = Vec::new();
    let mut k: usize = 0;
    while k < nb
        invariant
            nb == bc.inputs@.len(),
            k <= nb,
            bnames@.len() == k,
            alphas@.len() == k,
            forall|kk: int| 0 <= kk < k ==> #[trigger] bnames@[kk]@ == bc.inputs@[kk].name@,
            forall|kk: int| 0 <= kk < k ==> #[trigger] alphas@[kk] == bc.inputs@[kk].alpha,
        decreases nb - k,
    {
        bnames.push(bc.inputs[k].name.clone());
        alphas.push(bc.inputs[k].alpha);
        k += 1;
    }
    proof {
        assert(input_refs(entries@[i as int].config) =~= bnames@.map_values(|s: String| s@));
        assert(alphas@ =~= bc.inputs@.map_values(|bi: BlendInput| bi.alpha));
    }
    match resolve_inputs(entries, pass_of, att_of, &bnames) {
        Err(e) => {
            proof {
                if let BuildError::ResolutionError(nm) = &e {
                    assert(input_refs(entries@[i as int].config).contains(nm@));
                    if inputs_resolve(entries@) {
                        let refs = input_refs(entries@[i as int].config);
                        let kk = choose|kk: int| 0 <= kk < refs.len() && refs[kk] == nm@;
                        assert(has_name(entries@, refs[kk]));
                    }
                }
            }
            Err(e)
        },
        Ok((atts, deps)) => Ok(
            RenderPass {
                name: entries[i].name.clone(),
                kind: PassKind::Blend { operation: bc.operation, alphas },
                attachments: atts,
                depends: deps,
                width,
                height,
            },
        ),
    }
}

/// A broken parameter link refutes parameter resolution.
proof fn lemma_param_missing(entries: Seq<NodeEntry>, i: int, nm: Seq<char>)
    requires
        0 <= i < entries.len(),
        param_refs(entries[i].config).contains(nm),
        !has_name(entries, nm),
    ensures
        !params_resolve(entries),
{
    if params_resolve(entries) {
        let pr = param_refs(entries[i].config);
        let k = choose|k: int| 0 <= k < pr.len() && pr[k] == nm;
        assert(has_name(entries, pr[k]));
    }
}

/// Build the pass for a text entry.
fn build_text_pass(
    entries: &Vec<NodeEntry>,
    i: usize,
    tc: &TextConfig,
    width: u32,
    height: u32,
) -> (r: Result<RenderPass, BuildError>)
    requires
        unique_names(entries@),
        i < entries@.len(),
        entries@[i as int].config == NodeConfig::Text(*tc),
    ensures
        r matches Ok(pass) ==> pass_corresponds(entries@, i as int, pass, width, height)
            && entry_resolves(entries@, i as int),
        r matches Err(e) ==> build_error_cause(entries@, e) && !buildable(entries@),
{
    let text = match resolve_text(entries, &tc.text) {
        Ok(v) => v,
        Err(e) => {
            proof {
                if let BuildError::BrokenLink(nm) = &e {
                    assert(param_refs(entries@[i as int].config)[0] == nm@);
                    assert(param_refs(entries@[i as int].config).contains(nm@));
                    lemma_param_missing(entries@, i as int, nm@);
                }
            }
            return Err(e);
        },
    };
    let position = match resolve_param(entries, &tc.position) {
        Ok(v) => v,
        Err(e) => {
            proof {
                if let BuildError::BrokenLink(nm) = &e {
                    let pr = param_refs(entries@[i as int].config);
                    let a = opt_ref(link_of(tc.text));
                    assert(pr[a.len() as int] == nm@);
                    assert(pr.contains(nm@));
                    lemma_param_missing(entries@, i as int, nm@);
                }
            }
            return Err(e);
        },
    };
    let color = match resolve_param(entries, &tc.color) {
        Ok(v) => v,
        Err(e) => {
            proof {
                if let BuildError::BrokenLink(nm) = &e {
                    let pr = param_refs(entries@[i as int].config);
                    let a = opt_ref(link_of(tc.text));
                    let b = opt_ref(link_of(tc.position));
                    assert(pr[a.len() + b.len() as int] == nm@);
                    assert(pr.contains(nm@));
                    lemma_param_missing(entries@, i as int, nm@);
                }
            }
            return Err(e);
        },
    };
    proof {
        lemma_text_params_resolve(entries@, *tc);
    }
    Ok(
        RenderPass {
            name: entries[i].name.clone(),
            kind: PassKind::Text {
                text,
                position,
                color,
                font_name: tc.font_name.clone(),
                font_size: tc.font_size,
            },
            attachments: Vec::new(),
            depends: Vec::new(),
            width,
            height,
        },
    )
}

/// Build the pass for a frame-rate overlay entry.
fn build_fps_pass(
    entries: &Vec<NodeEntry>,
    i: usize,
    fc: &FpsConfig,
    width: u32,
    height: u32,
) -> (r: Result<RenderPass, BuildError>)
    requires
        unique_names(entries@),
        i < entries@.len(),
        entries@[i as int].config == NodeConfig::Fps(*fc),
    ensures
        r matches Ok(pass) ==> pass_corresponds(entries@, i as int, pass, width, height)
            && entry_resolves(entries@, i as int),
        r matches Err(e) ==> build_error_cause(entries@, e) && !buildable(entries@),
{
    let color = match resolve_param(entries, &fc.color) {
        Ok(v) => v,
        Err(e) => {
            proof {
                if let BuildError::BrokenLink(nm) = &e {
                    assert(param_refs(entries@[i as int].config)[0] == nm@);
                    assert(param_refs(entries@[i as int].config).contains(nm@));
                    lemma_param_missing(entries@, i as int, nm@);
                }
            }
            return Err(e);
        },
    };
    Ok(
        RenderPass {
            name: entries[i].name.clone(),
            kind: PassKind::Fps {
                position: fc.position,
                color,
                font_name: fc.font_name.clone(),
                font_size: fc.font_size,
                interval_ms: fc.interval_ms,
            },
            attachments: Vec::new(),
            depends: Vec::new(),
            width,
            height,
        },
    )
}

/// Every dependency index of a fully built arena stays inside it.
#[verifier::spinoff_prover]
proof fn lemma_arena_deps_bounded(
    entries: Seq<NodeEntry>,
    passes: Seq<RenderPass>,
    width: u32,
    height: u32,
)
    requires
        unique_names(entries),
        inputs_resolve(entries),
        passes.len() == renderable_count(entries, entries.len() as int),
        forall|i: int|
            0 <= i < entries.len() && is_renderable(entries[i].config)
                ==> #[trigger] pass_corresponds(
                entries,
                i,
                passes[renderable_count(entries, i)],
                width,
                height,
            ),
    ensures
        deps_bounded(passes),
{
    let n = entries.len() as int;
    assert forall|p: int, k: int|
        0 <= p < passes.len() && 0 <= k < passes[p].depends@.len() implies #[trigger] passes[p].depends@[k]
        < passes.len() by {
        lemma_pass_entry_exists(entries, p, n);
        let e = choose|e: int|
            0 <= e < n && is_renderable(#[trigger] entries[e].config) && renderable_count(
                entries,
                e,
            ) == p;
        assert(pass_corresponds(entries, e, passes[p], width, height));
        let refs = input_refs(entries[e].config);
        let exp = expected_deps(entries, refs);
        assert(passes[p].depends@[k] == exp[k]);
        assert(exp.contains(exp[k]));
        lemma_expected_deps_member(entries, refs, exp[k]);
        let j = choose|j: int|
            0 <= j < entries.len() && is_renderable(#[trigger] entries[j].config)
                && renderable_count(entries, j) == exp[k] && refs.contains(entries[j].name@);
        lemma_count_monotonic(entries, j, n);
    }
}



/// Each renderable entry's pass lists exactly the attachment indices its
/// input references denote.
pub open spec fn atts_match(entries: Seq<NodeEntry>, passes: Seq<RenderPass>, i: int) -> bool {
    seq_matches(
        passes[renderable_count(entries, i)].attachments@,
        expected_atts(entries, input_refs(entries[i].config)),
    )
}

/// Each renderable entry's pass kind corresponds to its configuration.
pub open spec fn kind_match(entries: Seq<NodeEntry>, passes: Seq<RenderPass>, i: int) -> bool {
    kind_corresponds(entries, entries[i].config, passes[renderable_count(entries, i)].kind)
}

/// Every attachment index of a fully built arena stays inside the attachment
/// arena.
#[verifier::spinoff_prover]
#[verifier::rlimit(100)]
proof fn lemma_arena_atts_bounded(entries: Seq<NodeEntry>, passes: Seq<RenderPass>, n_atts: int)
    requires
        unique_names(entries),
        inputs_resolve(entries),
        passes.len() == renderable_count(entries, entries.len() as int),
        forall|i: int|
            0 <= i < entries.len() && is_renderable(entries[i].config) ==> #[trigger] atts_match(
                entries,
                passes,
                i,
            ),
        n_atts == image_count(entries, entries.len() as int),
    ensures
        forall|p: int, k: int|
            0 <= p < passes.len() && 0 <= k < passes[p].attachments@.len()
                ==> #[trigger] passes[p].attachments@[k] < n_atts,
{
    let n = entries.len() as int;
    assert forall|p: int, k: int|
        0 <= p < passes.len() && 0 <= k < passes[p].attachments@.len() implies #[trigger] passes[p].attachments@[k]
        < n_atts by {
        lemma_pass_entry_exists(entries, p, n);
        let e = choose|e: int|
            0 <= e < n && is_renderable(#[trigger] entries[e].config) && renderable_count(
                entries,
                e,
            ) == p;
        assert(atts_match(entries, passes, e));
        let refs = input_refs(entries[e].config);
        let exp = expected_atts(entries, refs);
        assert(passes[p].attachments@[k] == exp[k]);
        assert(exp.contains(exp[k]));
        lemma_expected_atts_member(entries, refs, exp[k]);
    }
}

/// Every parameter link of a fully built arena lands inside the output
/// table.
#[verifier::spinoff_prover]
#[verifier::rlimit(100)]
proof fn lemma_arena_kinds_ok(entries: Seq<NodeEntry>, passes: Seq<RenderPass>)
    requires
        unique_names(entries),
        params_resolve(entries),
        passes.len() == renderable_count(entries, entries.len() as int),
        forall|i: int|
            0 <= i < entries.len() && is_renderable(entries[i].config) ==> #[trigger] kind_match(
                entries,
                passes,
                i,
            ),
    ensures
        forall|p: int|
            0 <= p < passes.len() ==> kind_ok(#[trigger] passes[p].kind, entries.len() as int),
{
    let n = entries.len() as int;
    assert forall|p: int| 0 <= p < passes.len() implies kind_ok(#[trigger] passes[p].kind, n) by {
        lemma_pass_entry_exists(entries, p, n);
        let e = choose|e: int|
            0 <= e < n && is_renderable(#[trigger] entries[e].config) && renderable_count(
                entries,
                e,
            ) == p;
        assert(kind_match(entries, passes, e));
        match entries[e].config {
            NodeConfig::Text(tc) => {
                let pr = param_refs(entries[e].config);
                let a = opt_ref(link_of(tc.text));
                let b = opt_ref(link_of(tc.position));
                if let NodeParameter::NodeConnection(nm) = tc.text {
                    assert(pr[0] == nm@);
                    assert(has_name(entries, nm@));
                }
                if let NodeParameter::NodeConnection(nm) = tc.position {
                    assert(pr[a.len() as int] == nm@);
                    assert(has_name(entries, nm@));
                }
                if let NodeParameter::NodeConnection(nm) = tc.color {
                    assert(pr[a.len() + b.len() as int] == nm@);
                    assert(has_name(entries, nm@));
                }
            },
            NodeConfig::Fps(fc) => {
                let pr = param_refs(entries[e].config);
                if let NodeParameter::NodeConnection(nm) = fc.color {
                    assert(pr[0] == nm@);
                    assert(has_name(entries, nm@));
                }
            },
            _ => {},
        }
    }
}

/// A stuck member's pass depends on another stuck member's pass, so the
/// member has a dependency edge to another stuck renderable entry.
#[verifier::spinoff_prover]
#[verifier::rlimit(100)]
proof fn lemma_cycle_member_step(
    entries: Seq<NodeEntry>,
    passes: Seq<RenderPass>,
    stuck: Seq<usize>,
    i: int,
)
    requires
        unique_names(entries),
        inputs_resolve(entries),
        passes.len() == renderable_count(entries, entries.len() as int),
        forall|x: int|
            0 <= x < entries.len() && is_renderable(entries[x].config) ==> #[trigger] deps_match(
                entries,
                passes,
                x,
            ),
        forall|m: int| 0 <= m < stuck.len() ==> #[trigger] stuck[m] < passes.len(),
        pass_closed_set(passes, stuck_index_set(stuck)),
        0 <= i < entries.len(),
        is_renderable(entries[i].config),
        stuck_index_set(stuck).contains(renderable_count(entries, i)),
    ensures
        exists|j: int|
            0 <= j < entries.len() && is_renderable(#[trigger] entries[j].config)
                && stuck_index_set(stuck).contains(renderable_count(entries, j)) && dep_edge(
                entries,
                i,
                j,
            ),
{
    let n = entries.len() as int;
    let np = passes.len() as int;
    let sp = stuck_index_set(stuck);
    let p = renderable_count(entries, i);
    assert(sp.contains(p));
    assert(0 <= p < np);
    let w = choose|w: int| sp.contains(w) && seq_has_index(passes[p].depends@, w);
    let kk = choose|kk: int| 0 <= kk < passes[p].depends@.len() && passes[p].depends@[kk] == w;
    assert(deps_match(entries, passes, i));
    let refs = input_refs(entries[i].config);
    let exp = expected_deps(entries, refs);
    assert(exp[kk] == w);
    assert(exp.contains(w));
    lemma_expected_deps_member(entries, refs, w);
    let j = choose|j: int|
        0 <= j < entries.len() && is_renderable(#[trigger] entries[j].config) && renderable_count(
            entries,
            j,
        ) == w && refs.contains(entries[j].name@);
    assert(dep_edge(entries, i, j));
    assert(sp.contains(renderable_count(entries, j)));
}

/// A stuck pass set maps back to a closed dependency set of the entries: the
/// node set has a cycle.
#[verifier::spinoff_prover]
#[verifier::rlimit(100)]
proof fn lemma_stuck_has_cycle(entries: Seq<NodeEntry>, passes: Seq<RenderPass>, stuck: Seq<usize>)
    requires
        unique_names(entries),
        inputs_resolve(entries),
        passes.len() == renderable_count(entries, entries.len() as int),
        forall|x: int|
            0 <= x < entries.len() && is_renderable(entries[x].config) ==> #[trigger] deps_match(
                entries,
                passes,
                x,
            ),
        stuck.len() > 0,
        forall|m: int| 0 <= m < stuck.len() ==> #[trigger] stuck[m] < passes.len(),
        pass_closed_set(passes, stuck_index_set(stuck)),
    ensures
        has_cycle(entries),
{
    let n = entries.len() as int;
    let np = passes.len() as int;
    let sp = stuck_index_set(stuck);
    let se = Set::new(
        |i: int|
            0 <= i < n && is_renderable(entries[i].config) && sp.contains(
                renderable_count(entries, i),
            ),
    );
    let p0 = choose|p: int| sp.contains(p);
    assert(0 <= p0 < np);
    lemma_pass_entry_exists(entries, p0, n);
    let i0 = choose|i: int|
        0 <= i < n && is_renderable(#[trigger] entries[i].config) && renderable_count(entries, i)
            == p0;
    assert(se.contains(i0));
    assert forall|i: int| #[trigger]
        se.contains(i) implies 0 <= i < n && exists|j: int| se.contains(j) && dep_edge(entries, i, j) by {
        lemma_cycle_member_step(entries, passes, stuck, i);
        let j = choose|j: int|
            0 <= j < entries.len() && is_renderable(#[trigger] entries[j].config)
                && stuck_index_set(stuck).contains(renderable_count(entries, j)) && dep_edge(
                entries,
                i,
                j,
            );
        assert(se.contains(j));
    }
    assert(closed_dep_set(entries, se));
}

/// Every stuck pass carries the name of the renderable entry it was built
/// from.
#[verifier::spinoff_prover]
#[verifier::rlimit(100)]
proof fn lemma_stuck_names(
    entries: Seq<NodeEntry>,
    passes: Seq<RenderPass>,
    stuck: Seq<usize>,
    names: Seq<String>,
)
    requires
        unique_names(entries),
        passes.len() == renderable_count(entries, entries.len() as int),
        forall|x: int|
            0 <= x < entries.len() && is_renderable(entries[x].config) ==> #[trigger] pass_named(
                entries,
                passes,
                x,
            ),
        forall|m: int| 0 <= m < stuck.len() ==> #[trigger] stuck[m] < passes.len(),
        names.len() == stuck.len(),
        forall|m: int| 0 <= m < names.len() ==> #[trigger] names[m]@ == passes[stuck[m] as int].name@,
    ensures
        forall|m: int| 0 <= m < names.len() ==> has_name(entries, #[trigger] names[m]@),
{
    let n = entries.len() as int;
    assert forall|m: int| 0 <= m < names.len() implies has_name(entries, #[trigger] names[m]@) by {
        let p = stuck[m] as int;
        lemma_pass_entry_exists(entries, p, n);
        let e = choose|e: int|
            0 <= e < n && is_renderable(#[trigger] entries[e].config) && renderable_count(
                entries,
                e,
            ) == p;
        assert(pass_named(entries, passes, e));
        assert(names[m]@ == entries[e].name@);
    }
}

/// A successfully ranked arena yields a well-formed graph, and its existence
/// refutes every closed dependency set of the node set.
#[verifier::spinoff_prover]
#[verifier::rlimit(100)]
proof fn lemma_build_ok(entries: Seq<NodeEntry>, g: Graph, width: u32, height: u32)
    requires
        unique_names(entries),
        inputs_resolve(entries),
        params_resolve(entries),
        g.passes@.len() == renderable_count(entries, entries.len() as int),
        g.attachments@.len() == image_count(entries, entries.len() as int),
        g.outputs@.len() == entries.len(),
        forall|i: int|
            0 <= i < entries.len() ==> #[trigger] g.outputs@[i] == expected_output(entries, i),
        forall|i: int|
            0 <= i < entries.len() ==> ((#[trigger] entries[i].config) matches NodeConfig::Image(
                im,
            ) ==> {
                let a = g.attachments@[image_count(entries, i)];
                a.name@ == entries[i].name@ && a.path@ == im.path@
            }),
        forall|i: int|
            0 <= i < entries.len() && is_renderable(entries[i].config)
                ==> #[trigger] pass_corresponds(
                entries,
                i,
                g.passes@[renderable_count(entries, i)],
                width,
                height,
            ),
        deps_bounded(g.passes@),
        g.rank@.len() == g.passes@.len(),
        forall|p: int| 0 <= p < g.passes@.len() ==> #[trigger] g.rank@[p] < g.passes@.len(),
        forall|p: int, kk: int|
            0 <= p < g.passes@.len() && 0 <= kk < g.passes@[p].depends@.len() ==> g.rank@[(
            #[trigger] g.passes@[p].depends@[kk]) as int] < g.rank@[p],
        g.terminal@.len() == g.passes@.len(),
        forall|p: int|
            0 <= p < g.passes@.len() ==> ((#[trigger] g.terminal@[p]) <==> !exists|q: int, k: int|
                0 <= q < g.passes@.len() && 0 <= k < g.passes@[q].depends@.len()
                    && #[trigger] g.passes@[q].depends@[k] == p),
    ensures
        graph_corresponds(entries, g, width, height),
        !has_cycle(entries),
{
    let n = entries.len() as int;
    assert forall|i: int|
        0 <= i < n && is_renderable(entries[i].config) implies #[trigger] deps_match(
        entries,
        g.passes@,
        i,
    ) by {
        assert(pass_corresponds(
            entries,
            i,
            g.passes@[renderable_count(entries, i)],
            width,
            height,
        ));
    }
    assert forall|i: int|
        0 <= i < n && is_renderable(entries[i].config) implies #[trigger] atts_match(
        entries,
        g.passes@,
        i,
    ) by {
        assert(pass_corresponds(
            entries,
            i,
            g.passes@[renderable_count(entries, i)],
            width,
            height,
        ));
    }
    assert forall|i: int|
        0 <= i < n && is_renderable(entries[i].config) implies #[trigger] kind_match(
        entries,
        g.passes@,
        i,
    ) by {
        assert(pass_corresponds(
            entries,
            i,
            g.passes@[renderable_count(entries, i)],
            width,
            height,
        ));
    }
    lemma_ranked_acyclic(entries, g.passes@, g.rank@);
    lemma_arena_atts_bounded(entries, g.passes@, g.attachments@.len() as int);
    lemma_arena_kinds_ok(entries, g.passes@);
    assert forall|i: int| 0 <= i < n implies ((#[trigger] g.outputs@[i]) matches
        UniformValue::Sampler(s) && crate::graph::sampler_ok(
        s,
        g.passes@.len() as int,
        g.attachments@.len() as int,
    )) by {
        lemma_count_bounds(entries, i);
        lemma_count_monotonic(entries, i, n);
    }
    assert forall|i: int|
        0 <= i < n && is_renderable(#[trigger] entries[i].config) implies pass_corresponds(
        entries,
        i,
        g.passes@[renderable_count(entries, i)],
        width,
        height,
    ) by {
        assert(pass_corresponds(
            entries,
            i,
            g.passes@[renderable_count(entries, i)],
            width,
            height,
        ));
    }
    assert(g.wf());
}

/// Build a graph from an ordered node set: index names, resolve references,
/// reject duplicates, broken references and cycles, and instantiate every
/// pass at the given target size with a dependency-first ranking.
#[verifier::rlimit(100)]
#[verifier::spinoff_prover]
pub fn build(entries: &Vec<NodeEntry>, width: u32, height: u32) -> (r: Result<Graph, BuildError>)
    ensures
        r matches Ok(g) ==> buildable(entries@) && graph_corresponds(entries@, g, width, height),
        r matches Err(e) ==> !buildable(entries@) && build_error_cause(entries@, e),
{
    let n = entries.len();
    if let Some(nm) = check_duplicates(entries) {
        return Err(BuildError::DuplicateName(nm));
    }
    let (pass_of, att_of) = compute_offsets(entries);
    let mut passes: Vec<RenderPass> = Vec::new();
    let mut attachments: Vec<Attachment> = Vec::new();
    let mut i: usize = 0;
    while i < n
        invariant
            n == entries@.len(),
            unique_names(entries@),
            pass_of@.len() == n,
            att_of@.len() == n,
            forall|a: int| 0 <= a < n ==> #[trigger] pass_of@[a] == renderable_count(entries@, a),
            forall|a: int| 0 <= a < n ==> #[trigger] att_of@[a] == image_count(entries@, a),
            i <= n,
            passes@.len() == renderable_count(entries@, i as int),
            attachments@.len() == image_count(entries@, i as int),
            forall|a: int|
                0 <= a < i && is_renderable(#[trigger] entries@[a].config) ==> pass_corresponds(
                    entries@,
                    a,
                    passes@[renderable_count(entries@, a)],
                    width,
                    height,
                ),
            forall|a: int|
                0 <= a < i ==> ((#[trigger] entries@[a].config) matches NodeConfig::Image(im) ==> {
                    let at = attachments@[image_count(entries@, a)];
                    at.name@ == entries@[a].name@ && at.path@ == im.path@
                }),
            forall|a: int, k: int|
                0 <= a < i && 0 <= k < input_refs(entries@[a].config).len() ==> has_name(
                    entries@,
                    #[trigger] input_refs(entries@[a].config)[k],
                ),
            forall|a: int, k: int|
                0 <= a < i && 0 <= k < param_refs(entries@[a].config).len() ==> has_name(
                    entries@,
                    #[trigger] param_refs(entries@[a].config)[k],
                ),
        decreases n - i,
    {
        proof {
            lemma_count_bounds(entries@, i as int);
        }
        let ghost old_passes = passes@;
        let ghost old_atts = attachments@;
        match &entries[i].config {
            NodeConfig::Image(im) => {
                attachments.push(
                    Attachment { name: entries[i].name.clone(), path: im.path.clone() },
                );
            },
            NodeConfig::Shader(sc) => {
                proof {
                    assert(entries@[i as int].config == NodeConfig::Shader(*sc));
                }
                match build_shader_pass(entries, i, sc, &pass_of, &att_of, width, height) {
                    Ok(p) => passes.push(p),
                    Err(e) => return Err(e),
                }
            },
            NodeConfig::Blend(bc) => {
                proof {
                    assert(entries@[i as int].config == NodeConfig::Blend(*bc));
                }
                match build_blend_pass(entries, i, bc, &pass_of, &att_of, width, height) {
                    Ok(p) => passes.push(p),
                    Err(e) => return Err(e),
                }
            },
            NodeConfig::Text(tc) => {
                proof {
                    assert(entries@[i as int].config == NodeConfig::Text(*tc));
                }
                match build_text_pass(entries, i, tc, width, height) {
                    Ok(p) => passes.push(p),
                    Err(e) => return Err(e),
                }
            },
            NodeConfig::Fps(fc) => {
                proof {
                    assert(entries@[i as int].config == NodeConfig::Fps(*fc));
                }
                match build_fps_pass(entries, i, fc, width, height) {
                    Ok(p) => passes.push(p),
                    Err(e) => return Err(e),
                }
            },
        }
        proof {
            lemma_prefix_preserved(
                entries@,
                i as int,
                old_passes,
                old_atts,
                passes@,
                attachments@,
                width,
                height,
            );
            if is_renderable(entries@[i as int].config) {
                assert(input_refs(entries@[i as int].config).len() == 0 ==> seq_matches(
                    Seq::<usize>::empty(),
                    expected_atts(entries@, input_refs(entries@[i as int].config)),
                ) && seq_matches(
                    Seq::<usize>::empty(),
                    expected_deps(entries@, input_refs(entries@[i as int].config)),
                ));
            }
        }
        i += 1;
    }
    proof {
        assert(inputs_resolve(entries@));
        assert(params_resolve(entries@));
    }
    let np = passes.len();
    let na = attachments.len();
    let mut outputs: Vec<UniformValue> = Vec::new();
    let mut oi: usize = 0;
    while oi < n
        invariant
            n == entries@.len(),
            pass_of@.len() == n,
            att_of@.len() == n,
            forall|a: int| 0 <= a < n ==> #[trigger] pass_of@[a] == renderable_count(entries@, a),
            forall|a: int| 0 <= a < n ==> #[trigger] att_of@[a] == image_count(entries@, a),
            oi <= n,
            outputs@.len() == oi,
            forall|a: int| 0 <= a < oi ==> #[trigger] outputs@[a] == expected_output(entries@, a),
        decreases n - oi,
    {
        proof {
            lemma_count_bounds(entries@, oi as int);
        }
        match entries[oi].config {
            NodeConfig::Image(_) => {
                outputs.push(UniformValue::Sampler(SamplerRef::Attachment(att_of[oi])));
            },
            _ => {
                outputs.push(UniformValue::Sampler(SamplerRef::PassTexture(pass_of[oi])));
            },
        }
        oi += 1;
    }
    proof {
        lemma_arena_deps_bounded(entries@, passes@, width, height);
    }
    match topo_rank(&passes) {
        Ok(rank) => {
            let terminal = mark_terminals(&passes);
            let g = Graph { passes, attachments, rank, terminal, outputs };
            proof {
                assert forall|a: int|
                    0 <= a < entries@.len() && is_renderable(entries@[a].config) implies #[trigger] pass_corresponds(
                    entries@,
                    a,
                    g.passes@[renderable_count(entries@, a)],
                    width,
                    height,
                ) by {
                    assert(is_renderable(entries@[a].config));
                }
                lemma_build_ok(entries@, g, width, height);
            }
            Ok(g)
        },
        Err(stuck) => {
            let ns = stuck.len();
            let mut names: Vec<String> = Vec::new();
            let mut m: usize = 0;
            while m < ns
                invariant
                    ns == stuck@.len(),
                    np == passes@.len(),
                    forall|m2: int| 0 <= m2 < ns ==> #[trigger] stuck@[m2] < np,
                    m <= ns,
                    names@.len() == m,
                    forall|m2: int|
                        0 <= m2 < m ==> #[trigger] names@[m2]@ == passes@[stuck@[m2] as int].name@,
                decreases ns - m,
            {
                names.push(passes[stuck[m]].name.clone());
                m += 1;
            }
            proof {
                assert forall|x: int|
                    0 <= x < entries@.len() && is_renderable(entries@[x].config) implies {
                    &&& #[trigger] deps_match(entries@, passes@, x)
                    &&& pass_named(entries@, passes@, x)
                } by {
                    assert(pass_corresponds(
                        entries@,
                        x,
                        passes@[renderable_count(entries@, x)],
                        width,
                        height,
                    ));
                }
                assert forall|x: int|
                    0 <= x < entries@.len() && is_renderable(entries@[x].config) implies #[trigger] pass_named(
                    entries@,
                    passes@,
                    x,
                ) by {
                    assert(deps_match(entries@, passes@, x));
                }
                lemma_stuck_has_cycle(entries@, passes@, stuck@);
                lemma_stuck_names(entries@, passes@, stuck@, names@);
            }
            Err(BuildError::CycleError(names))
        },
    }
}



/// Rebuild the whole graph from a new node set. On failure the prior graph
/// stays in effect, so a subsequent frame renders exactly what the pre-reload
/// graph would have rendered; the failure is reported, never swallowed.
pub fn reload(g: &mut Graph, entries: &Vec<NodeEntry>, width: u32, height: u32) -> (r: Result<
    (),
    BuildError,
>)
    requires
        old(g).wf(),
    ensures
        final(g).wf(),
        r is Ok ==> buildable(entries@) && graph_corresponds(entries@, *final(g), width, height),
        r matches Err(e) ==> *final(g) == *old(g) && !buildable(entries@) && build_error_cause(
            entries@,
            e,
        ),
{
    match build(entries, width, height) {
        Ok(ng) => {
            *g = ng;
            Ok(())
        },
        Err(e) => Err(e),
    }
}

} // verus!
