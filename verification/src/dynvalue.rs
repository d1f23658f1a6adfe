//! A reflected value tree: structures and enums built at run time.
//!
//! A host that cannot generate a binding per type can describe its state
//! as a `DynNode` tree once and track that.  The tree satisfies the same
//! binding contract a generated implementation must meet: structures
//! delegate field by field and refuse wholesale replacement, enums expose
//! the synthetic `variant` pseudo-field which rebuilds the value from the
//! chosen variant's configured field defaults.

use vstd::prelude::*;

use crate::data::Namespaced;
use crate::data::NodeView;
use crate::data::ParamView;
use crate::data::Parameter;
use crate::data::Repr;
use crate::data::Value;
use crate::reflect::LiveMod;
use crate::repr::fields_node;
use crate::repr::lm_name;
use crate::target::ActionTarget;

verus! {

/// A reflected value: a leaf, a structure, or an enum with named
/// variants, each holding the field defaults used on a variant switch.
pub enum DynNode {
    SignedInt(i64),
    UnsignedInt(u64),
    Bool(bool),
    Text(String),
    Structure { name: String, fields: Vec<(String, DynNode)> },
    Variants {
        name: String,
        variants: Vec<(String, Vec<(String, DynNode)>)>,
        active: usize,
        fields: Vec<(String, DynNode)>,
    },
}

/// The index of the first entry named `k`, or `-1`.
pub open spec fn assoc_find<A>(s: Seq<(String, A)>, k: Seq<char>) -> int
    decreases s.len(),
{
    if s.len() == 0 {
        -1
    } else if s[0].0@ == k {
        0
    } else {
        let rest = assoc_find(s.drop_first(), k);
        if rest == -1 {
            -1
        } else {
            rest + 1
        }
    }
}

/// `assoc_find` finds the first matching index, if any.
pub proof fn lemma_assoc_find<A>(s: Seq<(String, A)>, k: Seq<char>)
    ensures
        -1 <= assoc_find(s, k) < s.len(),
        assoc_find(s, k) >= 0 ==> s[assoc_find(s, k)].0@ == k,
        assoc_find(s, k) >= 0 ==> forall|i: int| 0 <= i < assoc_find(s, k) ==> s[i].0@ != k,
        assoc_find(s, k) == -1 ==> forall|i: int| 0 <= i < s.len() ==> s[i].0@ != k,
    decreases s.len(),
{
    if s.len() > 0 && s[0].0@ != k {
        lemma_assoc_find(s.drop_first(), k);
        assert forall|i: int| 1 <= i < s.len() implies s[i] == s.drop_first()[i - 1] by {}
    }
}

/// If the names before `i` all differ from `k` and entry `i` matches,
/// then `i` is the first match.
pub proof fn lemma_assoc_find_first<A>(s: Seq<(String, A)>, k: Seq<char>, i: int)
    requires
        0 <= i < s.len(),
        s[i].0@ == k,
        forall|j: int| 0 <= j < i ==> s[j].0@ != k,
    ensures
        assoc_find(s, k) == i,
    decreases s.len(),
{
    if i > 0 {
        assert forall|j: int| 0 <= j < i - 1 implies s.drop_first()[j].0@ != k by {
            assert(s.drop_first()[j] == s[j + 1]);
        }
        assert(s.drop_first()[i - 1] == s[i]);
        lemma_assoc_find_first(s.drop_first(), k, i - 1);
    }
}

/// Entry names are unique.
pub open spec fn dyn_names_unique<A>(s: Seq<(String, A)>) -> bool {
    forall|i: int, j: int| 0 <= i < j < s.len() ==> s[i].0@ != s[j].0@
}

/// The structural invariant of a reflected tree.
pub open spec fn dyn_inv(d: DynNode) -> bool
    decreases d,
{
    match d {
        DynNode::Structure { name, fields } => dyn_names_unique(fields@) && dyn_fields_inv(
            fields@,
        ),
        DynNode::Variants { name, variants, active, fields } => {
            &&& variants@.len() >= 1
            &&& active < variants@.len()
            &&& dyn_names_unique(variants@)
            &&& dyn_names_unique(fields@)
            &&& dyn_fields_inv(fields@)
            &&& (forall|i: int| 0 <= i < fields@.len() ==> #[trigger] fields@[i].0@ != "variant"@)
            &&& dyn_variants_inv(variants@)
        },
        _ => true,
    }
}

/// Invariant of a field list.
pub open spec fn dyn_fields_inv(s: Seq<(String, DynNode)>) -> bool
    decreases s,
{
    if s.len() == 0 {
        true
    } else {
        dyn_fields_inv(s.drop_last()) && dyn_inv(s.last().1)
    }
}

/// Invariant of a variant list: each variant's defaults are a sound
/// field list without a `variant` entry.
pub open spec fn dyn_variants_inv(s: Seq<(String, Vec<(String, DynNode)>)>) -> bool
    decreases s,
{
    if s.len() == 0 {
        true
    } else {
        &&& dyn_variants_inv(s.drop_last())
        &&& dyn_names_unique(s.last().1@)
        &&& dyn_fields_inv(s.last().1@)
        &&& (forall|i: int|
            0 <= i < s.last().1@.len() ==> #[trigger] s.last().1@[i].0@ != "variant"@)
    }
}

/// `dyn_fields_inv` holds entrywise.
pub proof fn lemma_dyn_fields_inv_index(s: Seq<(String, DynNode)>, i: int)
    requires
        dyn_fields_inv(s),
        0 <= i < s.len(),
    ensures
        dyn_inv(s[i].1),
    decreases s.len(),
{
    if i < s.len() - 1 {
        lemma_dyn_fields_inv_index(s.drop_last(), i);
    }
}

/// `dyn_variants_inv` holds entrywise.
pub proof fn lemma_dyn_variants_inv_index(s: Seq<(String, Vec<(String, DynNode)>)>, i: int)
    requires
        dyn_variants_inv(s),
        0 <= i < s.len(),
    ensures
        dyn_names_unique(s[i].1@),
        dyn_fields_inv(s[i].1@),
        forall|j: int| 0 <= j < s[i].1@.len() ==> #[trigger] s[i].1@[j].0@ != "variant"@,
    decreases s.len(),
{
    if i < s.len() - 1 {
        lemma_dyn_variants_inv_index(s.drop_last(), i);
    }
}

/// The value tree of a reflected node.
pub open spec fn dyn_model(d: DynNode) -> ParamView
    decreases d,
{
    match d {
        DynNode::SignedInt(v) => ParamView::SignedInt(v),
        DynNode::UnsignedInt(v) => ParamView::UnsignedInt(v),
        DynNode::Bool(v) => ParamView::Bool(v),
        DynNode::Text(s) => ParamView::Str(s@),
        DynNode::Structure { name, fields } => ParamView::Namespaced(
            NodeView { name: lm_name("struct"@), fields: dyn_field_models(fields@) },
        ),
        DynNode::Variants { name, variants, active, fields } => ParamView::Namespaced(
            NodeView {
                name: lm_name("enum"@),
                fields: seq![("variant"@, ParamView::Str(variants@[active as int].0@))]
                    + dyn_field_models(fields@),
            },
        ),
    }
}

/// The value models of a field list, in order.
pub open spec fn dyn_field_models(s: Seq<(String, DynNode)>) -> Seq<(Seq<char>, ParamView)>
    decreases s,
{
    if s.len() == 0 {
        Seq::empty()
    } else {
        dyn_field_models(s.drop_last()).push((s.last().0@, dyn_model(s.last().1)))
    }
}

/// `dyn_field_models` maps entries one for one.
pub proof fn lemma_dyn_field_models(s: Seq<(String, DynNode)>)
    ensures
        dyn_field_models(s).len() == s.len(),
        forall|i: int|
            0 <= i < s.len() ==> #[trigger] dyn_field_models(s)[i] == (
                s[i].0@,
                dyn_model(s[i].1),
            ),
    decreases s,
{
    if s.len() > 0 {
        lemma_dyn_field_models(s.drop_last());
        assert forall|i: int|
            0 <= i < s.len() implies #[trigger] dyn_field_models(s)[i] == (
            s[i].0@,
            dyn_model(s[i].1),
        ) by {
            if i < s.len() - 1 {
                assert(s.drop_last()[i] == s[i]);
                assert(dyn_field_models(s)[i] == dyn_field_models(s.drop_last())[i]);
            }
        }
    }
}

/// The schema tree of a reflected node.
pub open spec fn dyn_repr(d: DynNode) -> NodeView
    decreases d,
{
    match d {
        DynNode::SignedInt(v) => crate::repr::builtin_node(
            crate::repr::BuiltinRepr::SignedInteger { min: i64::MIN, max: i64::MAX },
        ),
        DynNode::UnsignedInt(v) => crate::repr::builtin_node(
            crate::repr::BuiltinRepr::UnsignedInteger { min: u64::MIN, max: u64::MAX },
        ),
        DynNode::Bool(v) => crate::repr::builtin_node(crate::repr::BuiltinRepr::Bool),
        DynNode::Text(s) => crate::repr::builtin_node(
            crate::repr::BuiltinRepr::String { multiline: false },
        ),
        DynNode::Structure { name, fields } => NodeView {
            name: lm_name("struct"@),
            fields: seq![
                ("name"@, ParamView::Str(name@)),
                (
                    "fields"@,
                    ParamView::Namespaced(fields_node(dyn_field_reprs(fields@))),
                ),
            ],
        },
        DynNode::Variants { name, variants, active, fields } => NodeView {
            name: lm_name("enum"@),
            fields: seq![
                ("name"@, ParamView::Str(name@)),
                ("variant"@, ParamView::Str(variants@[active as int].0@)),
                (
                    "fields"@,
                    ParamView::Namespaced(fields_node(dyn_field_reprs(fields@))),
                ),
            ],
        },
    }
}

/// The schemas of a field list, in order.
pub open spec fn dyn_field_reprs(s: Seq<(String, DynNode)>) -> Seq<(Seq<char>, ParamView)>
    decreases s,
{
    if s.len() == 0 {
        Seq::empty()
    } else {
        dyn_field_reprs(s.drop_last()).push(
            (s.last().0@, ParamView::Namespaced(dyn_repr(s.last().1))),
        )
    }
}

/// `dyn_field_reprs` maps entries one for one.
pub proof fn lemma_dyn_field_reprs(s: Seq<(String, DynNode)>)
    ensures
        dyn_field_reprs(s).len() == s.len(),
        forall|i: int|
            0 <= i < s.len() ==> #[trigger] dyn_field_reprs(s)[i] == (
                s[i].0@,
                ParamView::Namespaced(dyn_repr(s[i].1)),
            ),
    decreases s,
{
    if s.len() > 0 {
        lemma_dyn_field_reprs(s.drop_last());
        assert forall|i: int|
            0 <= i < s.len() implies #[trigger] dyn_field_reprs(s)[i] == (
            s[i].0@,
            ParamView::Namespaced(dyn_repr(s[i].1)),
        ) by {
            if i < s.len() - 1 {
                assert(s.drop_last()[i] == s[i]);
                assert(dyn_field_reprs(s)[i] == dyn_field_reprs(s.drop_last())[i]);
            }
        }
    }
}

/// The live fields a path step enters: a structure's fields, or the
/// active fields of an enum.
pub open spec fn dyn_sub_fields(d: DynNode) -> Seq<(String, DynNode)> {
    match d {
        DynNode::Structure { name, fields } => fields@,
        DynNode::Variants { name, variants, active, fields } => fields@,
        _ => Seq::empty(),
    }
}

/// Whether a path step may enter `d` at all.
pub open spec fn dyn_is_composite(d: DynNode) -> bool {
    d is Structure || d is Variants
}

/// The node a path reaches: the node itself for the empty path, else the
/// named field of the structure or active variant, recursively.
pub open spec fn dyn_node_at(d: DynNode, path: Seq<Seq<char>>) -> Option<DynNode>
    decreases path.len(),
{
    if path.len() == 0 {
        Some(d)
    } else if dyn_is_composite(d) && assoc_find(dyn_sub_fields(d), path[0]) >= 0 {
        dyn_node_at(dyn_sub_fields(d)[assoc_find(dyn_sub_fields(d), path[0])].1, path.skip(1))
    } else {
        None
    }
}

/// Targets the reflected tree accepts for reading.
pub open spec fn dyn_valid_target(d: DynNode, path: Seq<Seq<char>>) -> bool {
    dyn_node_at(d, path) is Some
}

/// Whether `accept` at `path` with `value` is legal.
pub open spec fn dyn_valid_accept(d: DynNode, path: Seq<Seq<char>>, value: ParamView) -> bool
    decreases path.len(),
{
    match d {
        DynNode::SignedInt(_) => path.len() == 0 && value is SignedInt,
        DynNode::UnsignedInt(_) => path.len() == 0 && value is UnsignedInt,
        DynNode::Bool(_) => path.len() == 0 && value is Bool,
        DynNode::Text(_) => path.len() == 0 && value is Str,
        DynNode::Structure { name, fields } => {
            &&& path.len() >= 1
            &&& assoc_find(fields@, path[0]) >= 0
            &&& dyn_valid_accept(fields@[assoc_find(fields@, path[0])].1, path.skip(1), value)
        },
        DynNode::Variants { name, variants, active, fields } => {
            if path.len() >= 1 && path[0] == "variant"@ {
                &&& path.len() == 1
                &&& value matches ParamView::Str(vn)
                &&& assoc_find(variants@, vn) >= 0
            } else {
                &&& path.len() >= 1
                &&& assoc_find(fields@, path[0]) >= 0
                &&& dyn_valid_accept(fields@[assoc_find(fields@, path[0])].1, path.skip(1), value)
            }
        },
    }
}


/// Find the entry named `k` in a field list.
fn dyn_find<A>(fields: &Vec<(String, A)>, k: &String) -> (r: Option<usize>)
    ensures
        assoc_find(fields@, k@) >= 0 ==> (r matches Some(ix) && ix == assoc_find(fields@, k@)
            && ix < fields@.len()),
        assoc_find(fields@, k@) == -1 ==> r is None,
{
    proof {
        lemma_assoc_find(fields@, k@);
    }
    let n: usize = fields.len();
    let mut i: usize = 0;
    while i < n
        invariant
            n == fields@.len(),
            i <= n,
            forall|j: int| 0 <= j < i ==> fields@[j].0@ != k@,
        decreases n - i,
    {
        if crate::data::string_eq(&fields[i].0, k) {
            proof {
                lemma_assoc_find_first(fields@, k@, i as int);
            }
            return Some(i);
        }
        i += 1;
    }
    None
}

/// Deep copy of a reflected tree: a sound tree keeps its model, schema
/// and soundness.
fn clone_dyn(d: &DynNode) -> (r: DynNode)
    ensures
        dyn_inv(*d) ==> dyn_inv(r) && dyn_model(r) == dyn_model(*d) && dyn_repr(r) == dyn_repr(
            *d,
        ),
    decreases *d,
{
    match d {
        DynNode::SignedInt(v) => DynNode::SignedInt(*v),
        DynNode::UnsignedInt(v) => DynNode::UnsignedInt(*v),
        DynNode::Bool(v) => DynNode::Bool(*v),
        DynNode::Text(t) => DynNode::Text(t.clone()),
        DynNode::Structure { name, fields } => {
            let fs = clone_dyn_fields(fields);
            let r = DynNode::Structure { name: name.clone(), fields: fs };
            proof {
                if dyn_inv(*d) {
                    assert(dyn_model(r) =~~= dyn_model(*d));
                    assert(dyn_repr(r) =~~= dyn_repr(*d));
                }
            }
            r
        },
        DynNode::Variants { name, variants, active, fields } => {
            let vs = clone_dyn_variants(variants);
            let fs = clone_dyn_fields(fields);
            let r = DynNode::Variants {
                name: name.clone(),
                variants: vs,
                active: *active,
                fields: fs,
            };
            proof {
                if dyn_inv(*d) {
                    assert forall|j: int| 0 <= j < vs@.len() implies dyn_names_unique(
                        #[trigger] vs@[j].1@,
                    ) && dyn_fields_inv(vs@[j].1@) && (forall|t: int|
                        0 <= t < vs@[j].1@.len() ==> #[trigger] vs@[j].1@[t].0@ != "variant"@) by {
                        lemma_dyn_variants_inv_index(variants@, j);
                        assert forall|t: int|
                            0 <= t < vs@[j].1@.len() implies #[trigger] vs@[j].1@[t].0@
                            != "variant"@ by {
                            assert(vs@[j].1@[t].0@ == variants@[j].1@[t].0@);
                        }
                    }
                    lemma_variants_inv_all(vs@);
                    assert(vs@[*active as int].0@ == variants@[*active as int].0@);
                    assert(dyn_model(r) =~~= dyn_model(*d));
                    assert(dyn_repr(r) =~~= dyn_repr(*d));
                    assert(dyn_inv(r));
                }
            }
            r
        },
    }
}

/// Deep copy of a variant list: variant names kept entrywise; each
/// default list keeps its names, and its models and soundness when sound.
fn clone_dyn_variants(variants: &Vec<(String, Vec<(String, DynNode)>)>) -> (vs: Vec<
    (String, Vec<(String, DynNode)>),
>)
    ensures
        vs@.len() == variants@.len(),
        forall|j: int| 0 <= j < variants@.len() ==> #[trigger] vs@[j].0@ == variants@[j].0@,
        dyn_variants_inv(variants@) ==> forall|j: int|
            0 <= j < variants@.len() ==> dyn_fields_inv(#[trigger] vs@[j].1@) && dyn_names_unique(
                vs@[j].1@,
            ) && vs@[j].1@.len() == variants@[j].1@.len() && dyn_field_models(vs@[j].1@)
                == dyn_field_models(variants@[j].1@) && (forall|t: int|
                0 <= t < vs@[j].1@.len() ==> #[trigger] vs@[j].1@[t].0@ == variants@[j].1@[t].0@),
    decreases *variants,
{
    let n: usize = variants.len();
    let mut vs: Vec<(String, Vec<(String, DynNode)>)> = Vec::new();
    let mut i: usize = 0;
    while i < n
        invariant
            n == variants@.len(),
            i <= n,
            vs@.len() == i,
            forall|j: int| 0 <= j < i ==> #[trigger] vs@[j].0@ == variants@[j].0@,
            dyn_variants_inv(variants@) ==> forall|j: int|
                0 <= j < i ==> dyn_fields_inv(#[trigger] vs@[j].1@) && dyn_names_unique(
                    vs@[j].1@,
                ) && vs@[j].1@.len() == variants@[j].1@.len() && dyn_field_models(vs@[j].1@)
                    == dyn_field_models(variants@[j].1@) && (forall|t: int|
                    0 <= t < vs@[j].1@.len() ==> #[trigger] vs@[j].1@[t].0@
                        == variants@[j].1@[t].0@),
        decreases n - i,
    {
        proof {
            if dyn_variants_inv(variants@) {
                lemma_dyn_variants_inv_index(variants@, i as int);
            }
        }
        let defaults = clone_dyn_fields(&variants[i].1);
        vs.push((variants[i].0.clone(), defaults));
        i += 1;
    }
    vs
}

/// Deep copy of a field list: names kept entrywise; models, schemas and
/// soundness kept when the source list is sound.
fn clone_dyn_fields(fields: &Vec<(String, DynNode)>) -> (r: Vec<(String, DynNode)>)
    ensures
        r@.len() == fields@.len(),
        forall|j: int| 0 <= j < fields@.len() ==> #[trigger] r@[j].0@ == fields@[j].0@,
        dyn_names_unique(fields@) ==> dyn_names_unique(r@),
        dyn_fields_inv(fields@) ==> dyn_fields_inv(r@) && dyn_field_models(r@)
            == dyn_field_models(fields@) && dyn_field_reprs(r@) == dyn_field_reprs(fields@),
    decreases *fields,
{
    let n: usize = fields.len();
    let mut out: Vec<(String, DynNode)> = Vec::new();
    let mut i: usize = 0;
    while i < n
        invariant
            n == fields@.len(),
            i <= n,
            out@.len() == i,
            forall|j: int| 0 <= j < i ==> #[trigger] out@[j].0@ == fields@[j].0@,
            dyn_fields_inv(fields@) ==> forall|j: int|
                0 <= j < i ==> dyn_inv(#[trigger] out@[j].1) && dyn_model(out@[j].1) == dyn_model(
                    fields@[j].1,
                ) && dyn_repr(out@[j].1) == dyn_repr(fields@[j].1),
        decreases n - i,
    {
        proof {
            if dyn_fields_inv(fields@) {
                lemma_dyn_fields_inv_index(fields@, i as int);
            }
        }
        let key = fields[i].0.clone();
        let val = clone_dyn(&fields[i].1);
        out.push((key, val));
        i += 1;
    }
    proof {
        if dyn_fields_inv(fields@) {
            assert forall|j: int| 0 <= j < out@.len() implies dyn_inv(#[trigger] out@[j].1) by {
            }
            lemma_dyn_fields_inv_all(out@);
            lemma_dyn_field_models(out@);
            lemma_dyn_field_models(fields@);
            assert(dyn_field_models(out@) =~= dyn_field_models(fields@));
            lemma_dyn_field_reprs(out@);
            lemma_dyn_field_reprs(fields@);
            assert(dyn_field_reprs(out@) =~= dyn_field_reprs(fields@));
        }
    }
    out
}

/// A field list whose entries are all sound is a sound field list.
proof fn lemma_dyn_fields_inv_all(s: Seq<(String, DynNode)>)
    requires
        forall|j: int| 0 <= j < s.len() ==> dyn_inv(#[trigger] s[j].1),
    ensures
        dyn_fields_inv(s),
    decreases s.len(),
{
    if s.len() > 0 {
        assert forall|j: int| 0 <= j < s.drop_last().len() implies dyn_inv(
            #[trigger] s.drop_last()[j].1,
        ) by {
            assert(s.drop_last()[j] == s[j]);
        }
        lemma_dyn_fields_inv_all(s.drop_last());
    }
}

/// A variant list whose entries are all sound is a sound variant list.
proof fn lemma_variants_inv_all(s: Seq<(String, Vec<(String, DynNode)>)>)
    requires
        forall|j: int|
            0 <= j < s.len() ==> dyn_names_unique(#[trigger] s[j].1@) && dyn_fields_inv(s[j].1@)
                && (forall|t: int| 0 <= t < s[j].1@.len() ==> #[trigger] s[j].1@[t].0@ != "variant"@),
    ensures
        dyn_variants_inv(s),
    decreases s.len(),
{
    if s.len() > 0 {
        assert forall|j: int|
            0 <= j < s.drop_last().len() implies dyn_names_unique(#[trigger] s.drop_last()[j].1@)
            && dyn_fields_inv(s.drop_last()[j].1@) && (forall|t: int|
            0 <= t < s.drop_last()[j].1@.len() ==> #[trigger] s.drop_last()[j].1@[t].0@
                != "variant"@) by {
            assert(s.drop_last()[j] == s[j]);
        }
        lemma_variants_inv_all(s.drop_last());
        assert(s.last() == s[s.len() - 1]);
    }
}

/// The value tree after `accept`: the leaf or subtree at `path` replaced.
pub open spec fn dyn_accept_model(d: DynNode, path: Seq<Seq<char>>, value: ParamView) -> ParamView
    decreases path.len(),
{
    match d {
        DynNode::SignedInt(_) => value,
        DynNode::UnsignedInt(_) => value,
        DynNode::Bool(_) => value,
        DynNode::Text(_) => value,
        DynNode::Structure { name, fields } => {
            if path.len() == 0 {
                dyn_model(d)
            } else {
                let ix = assoc_find(fields@, path[0]);
                ParamView::Namespaced(
                    NodeView {
                        name: lm_name("struct"@),
                        fields: dyn_field_models(fields@).update(
                            ix,
                            (path[0], dyn_accept_model(fields@[ix].1, path.skip(1), value)),
                        ),
                    },
                )
            }
        },
        DynNode::Variants { name, variants, active, fields } => {
            if path.len() >= 1 && path[0] == "variant"@ {
                let vix = assoc_find(variants@, value->Str_0);
                ParamView::Namespaced(
                    NodeView {
                        name: lm_name("enum"@),
                        fields: seq![("variant"@, ParamView::Str(value->Str_0))]
                            + dyn_field_models(variants@[vix].1@),
                    },
                )
            } else if path.len() == 0 {
                dyn_model(d)
            } else {
                let ix = assoc_find(fields@, path[0]);
                ParamView::Namespaced(
                    NodeView {
                        name: lm_name("enum"@),
                        fields: seq![("variant"@, ParamView::Str(variants@[active as int].0@))]
                            + dyn_field_models(fields@).update(
                            ix,
                            (path[0], dyn_accept_model(fields@[ix].1, path.skip(1), value)),
                        ),
                    },
                )
            }
        },
    }
}

/// Whether `accept` reports a possible schema change.
pub open spec fn dyn_accept_report(d: DynNode, path: Seq<Seq<char>>, value: ParamView) -> bool
    decreases path.len(),
{
    match d {
        DynNode::Structure { name, fields } => {
            if path.len() == 0 {
                false
            } else {
                dyn_accept_report(fields@[assoc_find(fields@, path[0])].1, path.skip(1), value)
            }
        },
        DynNode::Variants { name, variants, active, fields } => {
            if path.len() >= 1 && path[0] == "variant"@ {
                true
            } else if path.len() == 0 {
                false
            } else {
                dyn_accept_report(fields@[assoc_find(fields@, path[0])].1, path.skip(1), value)
            }
        },
        _ => false,
    }
}

impl LiveMod for DynNode {
    open spec fn inv(&self) -> bool {
        dyn_inv(*self)
    }

    open spec fn model(&self) -> ParamView {
        dyn_model(*self)
    }

    open spec fn repr_model(&self) -> NodeView {
        dyn_repr(*self)
    }

    open spec fn valid_target(&self, path: Seq<Seq<char>>) -> bool {
        dyn_valid_target(*self, path)
    }

    open spec fn valid_accept(&self, path: Seq<Seq<char>>, value: ParamView) -> bool {
        dyn_valid_accept(*self, path, value)
    }

    open spec fn get_model(&self, path: Seq<Seq<char>>) -> ParamView {
        dyn_model(dyn_node_at(*self, path)->Some_0)
    }

    open spec fn repr_at(&self, path: Seq<Seq<char>>) -> NodeView {
        dyn_repr(dyn_node_at(*self, path)->Some_0)
    }

    open spec fn accept_model(&self, path: Seq<Seq<char>>, value: ParamView) -> ParamView {
        dyn_accept_model(*self, path, value)
    }

    open spec fn accept_report(&self, path: Seq<Seq<char>>, value: ParamView) -> bool {
        dyn_accept_report(*self, path, value)
    }

    proof fn lemma_this_valid(&self) {
    }

    fn repr_default(&self, target: &ActionTarget) -> (r: Namespaced<Repr>)
        decreases *self,
    {
        match target.strip_one_field() {
            None => {
                match self {
                    DynNode::SignedInt(_) => Namespaced::<Repr>::from_builtin(
                        crate::repr::BuiltinRepr::SignedInteger { min: i64::MIN, max: i64::MAX },
                    ),
                    DynNode::UnsignedInt(_) => Namespaced::<Repr>::from_builtin(
                        crate::repr::BuiltinRepr::UnsignedInteger { min: u64::MIN, max: u64::MAX },
                    ),
                    DynNode::Bool(_) => Namespaced::<Repr>::from_builtin(
                        crate::repr::BuiltinRepr::Bool,
                    ),
                    DynNode::Text(_) => Namespaced::<Repr>::from_builtin(
                        crate::repr::BuiltinRepr::String { multiline: false },
                    ),
                    DynNode::Structure { name, fields } => {
                        let inner = build_field_reprs(fields);
                        let fields_tree = Namespaced::new(
                            crate::repr::lm_name_vec("fields"),
                            crate::repr::fields_of_vec(inner),
                        );
                        let mut outer: Vec<(String, Parameter<Repr>)> = Vec::new();
                        outer.push(("name".to_owned(), Parameter::String(name.clone())));
                        outer.push(("fields".to_owned(), Parameter::Namespaced(fields_tree)));
                        let r = Namespaced::new(
                            crate::repr::lm_name_vec("struct"),
                            crate::repr::fields_of_vec(outer),
                        );
                        proof {
                            crate::data::lemma_fview_len(outer@);
                            assert(r@.fields =~= dyn_repr(*self).fields);
                            assert(r@ =~~= dyn_repr(*self));
                        }
                        r
                    },
                    DynNode::Variants { name, variants, active, fields } => {
                        let inner = build_field_reprs(fields);
                        let fields_tree = Namespaced::new(
                            crate::repr::lm_name_vec("fields"),
                            crate::repr::fields_of_vec(inner),
                        );
                        let mut outer: Vec<(String, Parameter<Repr>)> = Vec::new();
                        outer.push(("name".to_owned(), Parameter::String(name.clone())));
                        outer.push(
                            ("variant".to_owned(), Parameter::String(variants[*active].0.clone())),
                        );
                        outer.push(("fields".to_owned(), Parameter::Namespaced(fields_tree)));
                        let r = Namespaced::new(
                            crate::repr::lm_name_vec("enum"),
                            crate::repr::fields_of_vec(outer),
                        );
                        proof {
                            crate::data::lemma_fview_len(outer@);
                            assert(r@.fields =~= dyn_repr(*self).fields);
                            assert(r@ =~~= dyn_repr(*self));
                        }
                        r
                    },
                }
            },
            Some((field, field_target)) => {
                match self {
                    DynNode::Structure { name, fields } => {
                        let ix = match dyn_find(fields, &field) {
                            Some(ix) => ix,
                            None => {
                                proof {
                                    assert(false);
                                }
                                0
                            },
                        };
                        proof {
                            lemma_dyn_fields_inv_index(fields@, ix as int);
                        }
                        fields[ix].1.repr_default(&field_target)
                    },
                    DynNode::Variants { name, variants, active, fields } => {
                        let ix = match dyn_find(fields, &field) {
                            Some(ix) => ix,
                            None => {
                                proof {
                                    assert(false);
                                }
                                0
                            },
                        };
                        proof {
                            lemma_dyn_fields_inv_index(fields@, ix as int);
                        }
                        fields[ix].1.repr_default(&field_target)
                    },
                    _ => {
                        proof {
                            assert(false);
                        }
                        Namespaced::<Repr>::from_builtin(crate::repr::BuiltinRepr::Bool)
                    },
                }
            },
        }
    }

    fn get_self(&self, target: &ActionTarget) -> (r: Parameter<Value>)
        decreases *self,
    {
        match target.strip_one_field() {
            None => {
                match self {
                    DynNode::SignedInt(v) => Parameter::SignedInt(*v),
                    DynNode::UnsignedInt(v) => Parameter::UnsignedInt(*v),
                    DynNode::Bool(v) => Parameter::Bool(*v),
                    DynNode::Text(t) => Parameter::String(t.clone()),
                    DynNode::Structure { name, fields } => {
                        let inner = build_field_values(fields);
                        let r = Namespaced::new(
                            crate::repr::lm_name_vec("struct"),
                            crate::repr::fields_of_vec(inner),
                        );
                        proof {
                            crate::data::lemma_fview_len(inner@);
                            lemma_dyn_field_models(fields@);
                            assert(r@.fields =~= dyn_field_models(fields@));
                            assert(r@ =~~= dyn_model(*self)->Namespaced_0);
                        }
                        Parameter::Namespaced(r)
                    },
                    DynNode::Variants { name, variants, active, fields } => {
                        let mut inner: Vec<(String, Parameter<Value>)> = Vec::new();
                        inner.push(
                            ("variant".to_owned(), Parameter::String(variants[*active].0.clone())),
                        );
                        let mut vals = build_field_values(fields);
                        let ghost vals_view = vals@;
                        inner.append(&mut vals);
                        let r = Namespaced::new(
                            crate::repr::lm_name_vec("enum"),
                            crate::repr::fields_of_vec(inner),
                        );
                        proof {
                            crate::data::lemma_fview_len(inner@);
                            crate::data::lemma_fview_len(vals_view);
                            lemma_dyn_field_models(fields@);
                            assert forall|j: int|
                                1 <= j < inner@.len() implies #[trigger] crate::data::fview(
                                inner@,
                            )[j] == dyn_field_models(fields@)[j - 1] by {
                                assert(inner@[j] == vals_view[j - 1]);
                                assert(crate::data::fview(vals_view)[j - 1] == (
                                    vals_view[j - 1].0@,
                                    crate::data::pview(vals_view[j - 1].1),
                                ));
                            }
                            assert(r@.fields =~= dyn_model(*self)->Namespaced_0.fields);
                            assert(r@ =~~= dyn_model(*self)->Namespaced_0);
                        }
                        Parameter::Namespaced(r)
                    },
                }
            },
            Some((field, field_target)) => {
                match self {
                    DynNode::Structure { name, fields } => {
                        let ix = match dyn_find(fields, &field) {
                            Some(ix) => ix,
                            None => {
                                proof {
                                    assert(false);
                                }
                                0
                            },
                        };
                        proof {
                            lemma_dyn_fields_inv_index(fields@, ix as int);
                        }
                        fields[ix].1.get_self(&field_target)
                    },
                    DynNode::Variants { name, variants, active, fields } => {
                        let ix = match dyn_find(fields, &field) {
                            Some(ix) => ix,
                            None => {
                                proof {
                                    assert(false);
                                }
                                0
                            },
                        };
                        proof {
                            lemma_dyn_fields_inv_index(fields@, ix as int);
                        }
                        fields[ix].1.get_self(&field_target)
                    },
                    _ => {
                        proof {
                            assert(false);
                        }
                        Parameter::Bool(false)
                    },
                }
            },
        }
    }

    #[verifier::rlimit(100)]
    fn accept(&mut self, target: &ActionTarget, value: Parameter<Value>) -> (r: bool)
        decreases *old(self),
    {
        let mut work: DynNode = DynNode::Bool(false);
        core::mem::swap(self, &mut work);
        match target.strip_one_field() {
            None => {
                match work {
                    DynNode::SignedInt(_) => {
                        match value {
                            Parameter::SignedInt(v) => {
                                *self = DynNode::SignedInt(v);
                            },
                            _ => {
                                proof {
                                    assert(false);
                                }
                            },
                        }
                    },
                    DynNode::UnsignedInt(_) => {
                        match value {
                            Parameter::UnsignedInt(v) => {
                                *self = DynNode::UnsignedInt(v);
                            },
                            _ => {
                                proof {
                                    assert(false);
                                }
                            },
                        }
                    },
                    DynNode::Bool(_) => {
                        match value {
                            Parameter::Bool(v) => {
                                *self = DynNode::Bool(v);
                            },
                            _ => {
                                proof {
                                    assert(false);
                                }
                            },
                        }
                    },
                    DynNode::Text(_) => {
                        match value {
                            Parameter::String(v) => {
                                *self = DynNode::Text(v);
                            },
                            _ => {
                                proof {
                                    assert(false);
                                }
                            },
                        }
                    },
                    _ => {
                        proof {
                            assert(false);
                        }
                    },
                }
                false
            },
            Some((field, field_target)) => {
                match work {
                    DynNode::Structure { name, mut fields } => {
                        let ix = match dyn_find(&fields, &field) {
                            Some(ix) => ix,
                            None => {
                                proof {
                                    assert(false);
                                }
                                0
                            },
                        };
                        proof {
                            lemma_dyn_fields_inv_index(fields@, ix as int);
                            lemma_assoc_find(fields@, field@);
                        }
                        let mut entry = fields.remove(ix);
                        let r = entry.1.accept(&field_target, value);
                        fields.insert(ix, entry);
                        proof {
                            assert(fields@ =~= old(self)->Structure_fields@.update(
                                ix as int,
                                fields@[ix as int],
                            ));
                        }
                        let ghost new_fields = fields@;
                        *self = DynNode::Structure { name, fields };
                        proof {
                            lemma_accept_structure(
                                *old(self),
                                *self,
                                ix as int,
                                field@,
                                field_target.path(),
                                value@,
                                r,
                            );
                            assert(target.path() =~= seq![field@] + field_target.path());
                        }
                        r
                    },
                    DynNode::Variants { name, variants, active, mut fields } => {
                        let variant_key: String = "variant".to_owned();
                        if crate::data::string_eq(&field, &variant_key) {
                            let vn = match value {
                                Parameter::String(s) => s,
                                _ => {
                                    proof {
                                        assert(false);
                                    }
                                    String::new()
                                },
                            };
                            let vix = match dyn_find(&variants, &vn) {
                                Some(vix) => vix,
                                None => {
                                    proof {
                                        assert(false);
                                    }
                                    0
                                },
                            };
                            proof {
                                lemma_dyn_variants_inv_index(variants@, vix as int);
                            }
                            let new_fields = clone_dyn_fields(&variants[vix].1);
                            *self = DynNode::Variants {
                                name,
                                variants,
                                active: vix,
                                fields: new_fields,
                            };
                            proof {
                                let vs = old(self)->Variants_variants@;
                                lemma_assoc_find(vs, vn@);
                                assert(vs[vix as int].0@ == vn@);
                                assert(target.path() =~= seq![field@] + field_target.path());
                                assert(target.path().len() == 1 && target.path()[0] == "variant"@);
                                assert(dyn_inv(*self));
                                assert(dyn_model(*self) =~~= dyn_accept_model(
                                    *old(self),
                                    target.path(),
                                    value@,
                                ));
                            }
                            true
                        } else {
                            let ix = match dyn_find(&fields, &field) {
                                Some(ix) => ix,
                                None => {
                                    proof {
                                        assert(false);
                                    }
                                    0
                                },
                            };
                            proof {
                                lemma_dyn_fields_inv_index(fields@, ix as int);
                                lemma_assoc_find(fields@, field@);
                            }
                            let mut entry = fields.remove(ix);
                            let r = entry.1.accept(&field_target, value);
                            fields.insert(ix, entry);
                            proof {
                                assert(fields@ =~= old(self)->Variants_fields@.update(
                                    ix as int,
                                    fields@[ix as int],
                                ));
                            }
                            *self = DynNode::Variants { name, variants, active, fields };
                            proof {
                                lemma_accept_variants_field(
                                    *old(self),
                                    *self,
                                    ix as int,
                                    field@,
                                    field_target.path(),
                                    value@,
                                    r,
                                );
                                assert(target.path() =~= seq![field@] + field_target.path());
                            }
                            r
                        }
                    },
                    _ => {
                        proof {
                            assert(false);
                        }
                        false
                    },
                }
            },
        }
    }

    fn check_target(&self, target: &ActionTarget) -> (r: bool)
        decreases *self,
    {
        match target.strip_one_field() {
            None => true,
            Some((field, rest)) => match self {
                DynNode::Structure { name, fields } => match dyn_find(fields, &field) {
                    Some(ix) => {
                        proof {
                            lemma_assoc_find(fields@, field@);
                            assert(assoc_find(fields@, field@) == ix as int);
                            lemma_dyn_fields_inv_index(fields@, ix as int);
                        }
                        fields[ix].1.check_target(&rest)
                    },
                    None => false,
                },
                DynNode::Variants { name, variants, active, fields } => match dyn_find(
                    fields,
                    &field,
                ) {
                    Some(ix) => {
                        proof {
                            lemma_assoc_find(fields@, field@);
                            assert(assoc_find(fields@, field@) == ix as int);
                            lemma_dyn_fields_inv_index(fields@, ix as int);
                        }
                        fields[ix].1.check_target(&rest)
                    },
                    None => false,
                },
                _ => false,
            },
        }
    }

    fn check_accept(&self, target: &ActionTarget, value: &Parameter<Value>) -> (r: bool)
        decreases *self,
    {
        match self {
            DynNode::SignedInt(_) => target.is_this() && matches!(value, Parameter::SignedInt(_)),
            DynNode::UnsignedInt(_) => target.is_this() && matches!(
                value,
                Parameter::UnsignedInt(_),
            ),
            DynNode::Bool(_) => target.is_this() && matches!(value, Parameter::Bool(_)),
            DynNode::Text(_) => target.is_this() && matches!(value, Parameter::String(_)),
            DynNode::Structure { name, fields } => match target.strip_one_field() {
                None => false,
                Some((field, rest)) => match dyn_find(fields, &field) {
                    Some(ix) => {
                        proof {
                            lemma_assoc_find(fields@, field@);
                            assert(assoc_find(fields@, field@) == ix as int);
                            lemma_dyn_fields_inv_index(fields@, ix as int);
                        }
                        fields[ix].1.check_accept(&rest, value)
                    },
                    None => false,
                },
            },
            DynNode::Variants { name, variants, active, fields } => match target.strip_one_field() {
                None => false,
                Some((field, rest)) => {
                    let vkey: String = "variant".to_owned();
                    proof {
                        assert(target.path()[0] == field@);
                    }
                    if crate::data::string_eq(&field, &vkey) {
                        if !rest.is_this() {
                            proof {
                                assert(rest matches ActionTarget::Field(_));
                                assert(rest.path().len() >= 1);
                                assert(rest.path() == target.path().skip(1));
                                assert(target.path().len() >= 2);
                            }
                            return false;
                        }
                        proof {
                            assert(rest.path().len() == 0);
                            assert(rest.path() == target.path().skip(1));
                            assert(target.path().len() == 1);
                        }
                        match value {
                            Parameter::String(vn) => {
                                proof {
                                    lemma_assoc_find(variants@, vn@);
                                }
                                match dyn_find(variants, vn) {
                                    Some(_) => true,
                                    None => false,
                                }
                            },
                            _ => false,
                        }
                    } else {
                        match dyn_find(fields, &field) {
                            Some(ix) => {
                                proof {
                                    lemma_assoc_find(fields@, field@);
                                    assert(assoc_find(fields@, field@) == ix as int);
                                    lemma_dyn_fields_inv_index(fields@, ix as int);
                                }
                                fields[ix].1.check_accept(&rest, value)
                            },
                            None => false,
                        }
                    }
                },
            },
        }
    }
}

/// Build the schema entries of a field list.
fn build_field_reprs(fields: &Vec<(String, DynNode)>) -> (r: Vec<(String, Parameter<Repr>)>)
    requires
        dyn_fields_inv(fields@),
    ensures
        crate::data::fview(r@) == dyn_field_reprs(fields@),
    decreases *fields,
{
    let n: usize = fields.len();
    let mut out: Vec<(String, Parameter<Repr>)> = Vec::new();
    let mut i: usize = 0;
    while i < n
        invariant
            n == fields@.len(),
            i <= n,
            dyn_fields_inv(fields@),
            out@.len() == i,
            forall|j: int|
                0 <= j < i ==> #[trigger] out@[j].0@ == fields@[j].0@ && out@[j].1@
                    == ParamView::Namespaced(dyn_repr(fields@[j].1)),
        decreases n - i,
    {
        proof {
            lemma_dyn_fields_inv_index(fields@, i as int);
            fields@[i as int].1.lemma_this_valid();
        }
        let this = ActionTarget::This;
        let node = fields[i].1.repr_default(&this);
        out.push((fields[i].0.clone(), Parameter::Namespaced(node)));
        i += 1;
    }
    proof {
        crate::data::lemma_fview_len(out@);
        lemma_dyn_field_reprs(fields@);
        assert(crate::data::fview(out@) =~= dyn_field_reprs(fields@));
    }
    out
}

/// Build the value entries of a field list.
fn build_field_values(fields: &Vec<(String, DynNode)>) -> (r: Vec<(String, Parameter<Value>)>)
    requires
        dyn_fields_inv(fields@),
    ensures
        crate::data::fview(r@) == dyn_field_models(fields@),
    decreases *fields,
{
    let n: usize = fields.len();
    let mut out: Vec<(String, Parameter<Value>)> = Vec::new();
    let mut i: usize = 0;
    while i < n
        invariant
            n == fields@.len(),
            i <= n,
            dyn_fields_inv(fields@),
            out@.len() == i,
            forall|j: int|
                0 <= j < i ==> #[trigger] out@[j].0@ == fields@[j].0@ && out@[j].1@ == dyn_model(
                    fields@[j].1,
                ),
        decreases n - i,
    {
        proof {
            lemma_dyn_fields_inv_index(fields@, i as int);
            fields@[i as int].1.lemma_this_valid();
        }
        let this = ActionTarget::This;
        let v = fields[i].1.get_self(&this);
        out.push((fields[i].0.clone(), v));
        i += 1;
    }
    proof {
        crate::data::lemma_fview_len(out@);
        lemma_dyn_field_models(fields@);
        assert(crate::data::fview(out@) =~= dyn_field_models(fields@));
    }
    out
}

/// After a structure field edit, the node meets the accept contract.
proof fn lemma_accept_structure(
    before: DynNode,
    after: DynNode,
    ix: int,
    field: Seq<char>,
    rest: Seq<Seq<char>>,
    value: ParamView,
    r: bool,
)
    requires
        before matches DynNode::Structure { name: n1, fields: f1 },
        after matches DynNode::Structure { name: n2, fields: f2 },
        dyn_inv(before),
        before->Structure_name == after->Structure_name,
        0 <= ix < before->Structure_fields@.len(),
        after->Structure_fields@.len() == before->Structure_fields@.len(),
        assoc_find(before->Structure_fields@, field) == ix,
        forall|j: int|
            0 <= j < before->Structure_fields@.len() && j != ix
                ==> #[trigger] after->Structure_fields@[j] == before->Structure_fields@[j],
        after->Structure_fields@[ix].0 == before->Structure_fields@[ix].0,
        dyn_inv(after->Structure_fields@[ix].1),
        dyn_model(after->Structure_fields@[ix].1) == dyn_accept_model(
            before->Structure_fields@[ix].1,
            rest,
            value,
        ),
        r == dyn_accept_report(before->Structure_fields@[ix].1, rest, value),
        !r ==> dyn_repr(after->Structure_fields@[ix].1) == dyn_repr(
            before->Structure_fields@[ix].1,
        ),
        rest.len() + 1 >= 1,
        field == before->Structure_fields@[ix].0@,
    ensures
        dyn_inv(after),
        dyn_model(after) == dyn_accept_model(before, seq![field] + rest, value),
        r == dyn_accept_report(before, seq![field] + rest, value),
        !r ==> dyn_repr(after) == dyn_repr(before),
{
    let bf = before->Structure_fields@;
    let af = after->Structure_fields@;
    let path = seq![field] + rest;
    assert(path[0] == field);
    assert(path.skip(1) =~= rest);
    assert forall|j: int| 0 <= j < af.len() implies af[j].0@ == bf[j].0@ by {
        if j != ix {
            assert(af[j] == bf[j]);
        }
    }
    assert forall|j: int| 0 <= j < af.len() implies dyn_inv(#[trigger] af[j].1) by {
        if j != ix {
            assert(af[j] == bf[j]);
            lemma_dyn_fields_inv_index(bf, j);
        }
    }
    lemma_dyn_fields_inv_all(af);
    lemma_dyn_field_models(af);
    lemma_dyn_field_models(bf);
    assert(dyn_field_models(af) =~= dyn_field_models(bf).update(
        ix,
        (field, dyn_accept_model(bf[ix].1, rest, value)),
    ));
    assert(dyn_model(after) =~~= dyn_accept_model(before, path, value));
    if !r {
        lemma_dyn_field_reprs(af);
        lemma_dyn_field_reprs(bf);
        assert forall|j: int| 0 <= j < af.len() implies #[trigger] dyn_field_reprs(af)[j]
            == dyn_field_reprs(bf)[j] by {
            if j != ix {
                assert(af[j] == bf[j]);
            }
        }
        assert(dyn_field_reprs(af) =~= dyn_field_reprs(bf));
        assert(dyn_repr(after) =~~= dyn_repr(before));
    }
}

/// After an enum field edit, the node meets the accept contract.
proof fn lemma_accept_variants_field(
    before: DynNode,
    after: DynNode,
    ix: int,
    field: Seq<char>,
    rest: Seq<Seq<char>>,
    value: ParamView,
    r: bool,
)
    requires
        before matches DynNode::Variants { .. },
        after matches DynNode::Variants { .. },
        dyn_inv(before),
        before->Variants_name == after->Variants_name,
        before->Variants_variants == after->Variants_variants,
        before->Variants_active == after->Variants_active,
        0 <= ix < before->Variants_fields@.len(),
        after->Variants_fields@.len() == before->Variants_fields@.len(),
        assoc_find(before->Variants_fields@, field) == ix,
        forall|j: int|
            0 <= j < before->Variants_fields@.len() && j != ix
                ==> #[trigger] after->Variants_fields@[j] == before->Variants_fields@[j],
        after->Variants_fields@[ix].0 == before->Variants_fields@[ix].0,
        dyn_inv(after->Variants_fields@[ix].1),
        dyn_model(after->Variants_fields@[ix].1) == dyn_accept_model(
            before->Variants_fields@[ix].1,
            rest,
            value,
        ),
        r == dyn_accept_report(before->Variants_fields@[ix].1, rest, value),
        !r ==> dyn_repr(after->Variants_fields@[ix].1) == dyn_repr(
            before->Variants_fields@[ix].1,
        ),
        field == before->Variants_fields@[ix].0@,
        field != "variant"@,
    ensures
        dyn_inv(after),
        dyn_model(after) == dyn_accept_model(before, seq![field] + rest, value),
        r == dyn_accept_report(before, seq![field] + rest, value),
        !r ==> dyn_repr(after) == dyn_repr(before),
{
    let bf = before->Variants_fields@;
    let af = after->Variants_fields@;
    let path = seq![field] + rest;
    assert(path[0] == field);
    assert(path.skip(1) =~= rest);
    assert forall|j: int| 0 <= j < af.len() implies af[j].0@ == bf[j].0@ by {
        if j != ix {
            assert(af[j] == bf[j]);
        }
    }
    assert forall|j: int| 0 <= j < af.len() implies dyn_inv(#[trigger] af[j].1) by {
        if j != ix {
            assert(af[j] == bf[j]);
            lemma_dyn_fields_inv_index(bf, j);
        }
    }
    lemma_dyn_fields_inv_all(af);
    lemma_dyn_field_models(af);
    lemma_dyn_field_models(bf);
    assert(dyn_field_models(af) =~= dyn_field_models(bf).update(
        ix,
        (field, dyn_accept_model(bf[ix].1, rest, value)),
    ));
    assert(dyn_model(after) =~~= dyn_accept_model(before, path, value));
    if !r {
        lemma_dyn_field_reprs(af);
        lemma_dyn_field_reprs(bf);
        assert forall|j: int| 0 <= j < af.len() implies #[trigger] dyn_field_reprs(af)[j]
            == dyn_field_reprs(bf)[j] by {
            if j != ix {
                assert(af[j] == bf[j]);
            }
        }
        assert(dyn_field_reprs(af) =~= dyn_field_reprs(bf));
        assert(dyn_repr(after) =~~= dyn_repr(before));
    }
}

/// Navigate a value tree by field names.
pub open spec fn model_at(m: ParamView, path: Seq<Seq<char>>) -> Option<ParamView>
    decreases path.len(),
{
    if path.len() == 0 {
        Some(m)
    } else {
        match m {
            ParamView::Namespaced(n) => {
                let ix = crate::data::find_key(n.fields, path[0]);
                if ix >= 0 {
                    model_at(n.fields[ix].1, path.skip(1))
                } else {
                    None
                }
            },
            _ => None,
        }
    }
}

/// Law (path resolution): on a sound reflected tree, a valid path of any
/// depth reaches exactly the sub-node that direct field access reaches,
/// and reading it equals navigating the value tree by the same names.
pub proof fn lemma_path_resolution(d: DynNode, path: Seq<Seq<char>>)
    requires
        dyn_inv(d),
        dyn_valid_target(d, path),
    ensures
        dyn_node_at(d, path) is Some,
        model_at(dyn_model(d), path) == Some(dyn_model(dyn_node_at(d, path)->Some_0)),
    decreases path.len(),
{
    if path.len() > 0 {
        let sub = dyn_sub_fields(d);
        let ix = assoc_find(sub, path[0]);
        lemma_assoc_find(sub, path[0]);
        lemma_dyn_field_models(sub);
        let ms = dyn_field_models(sub);
        match d {
            DynNode::Structure { name, fields } => {
                crate::data::lemma_find_key(ms, path[0]);
                let r = crate::data::find_key(ms, path[0]);
                assert(ms[ix] == (sub[ix].0@, dyn_model(sub[ix].1)));
                if r == -1 {
                    assert(ms[ix].0 == path[0]);
                    assert(false);
                } else if r < ix {
                    assert(ms[r] == (sub[r].0@, dyn_model(sub[r].1)));
                    assert(sub[r].0@ != path[0]);
                    assert(false);
                } else if r > ix {
                    assert(ms[ix].0 != path[0]);
                    assert(false);
                }
                lemma_dyn_fields_inv_index(fields@, ix);
                lemma_path_resolution(sub[ix].1, path.skip(1));
            },
            DynNode::Variants { name, variants, active, fields } => {
                let full = seq![("variant"@, ParamView::Str(variants@[active as int].0@))] + ms;
                crate::data::lemma_find_key(full, path[0]);
                let r = crate::data::find_key(full, path[0]);
                assert(sub[ix].0@ != "variant"@);
                assert(path[0] != "variant"@);
                assert(full[0].0 == "variant"@);
                assert(ms[ix] == (sub[ix].0@, dyn_model(sub[ix].1)));
                assert(full[ix + 1] == ms[ix]);
                if r == -1 {
                    assert(full[ix + 1].0 == path[0]);
                    assert(false);
                } else if r == 0 {
                    assert(false);
                } else if r < ix + 1 {
                    assert(full[r] == ms[r - 1]);
                    assert(ms[r - 1] == (sub[r - 1].0@, dyn_model(sub[r - 1].1)));
                    assert(sub[r - 1].0@ != path[0]);
                    assert(false);
                } else if r > ix + 1 {
                    assert(full[ix + 1].0 != path[0]);
                    assert(false);
                }
                assert(full[r].1 == dyn_model(sub[ix].1));
                lemma_dyn_fields_inv_index(fields@, ix);
                lemma_path_resolution(sub[ix].1, path.skip(1));
            },
            _ => {
                assert(false);
            },
        }
    }
}

/// Law (variant switch): accepting `variant = X` always reports a schema
/// change and rebuilds the value from variant X's configured field
/// defaults, whatever variant was active before.
pub proof fn lemma_variant_switch(d1: DynNode, d2: DynNode, vn: Seq<char>)
    requires
        d1 matches DynNode::Variants { .. },
        d2 matches DynNode::Variants { .. },
        d1->Variants_variants == d2->Variants_variants,
        dyn_valid_accept(d1, seq!["variant"@], ParamView::Str(vn)),
        dyn_valid_accept(d2, seq!["variant"@], ParamView::Str(vn)),
    ensures
        dyn_accept_report(d1, seq!["variant"@], ParamView::Str(vn)),
        dyn_accept_model(d1, seq!["variant"@], ParamView::Str(vn)) == dyn_accept_model(
            d2,
            seq!["variant"@],
            ParamView::Str(vn),
        ),
        ({
            let vix = assoc_find(d1->Variants_variants@, vn);
            dyn_accept_model(d1, seq!["variant"@], ParamView::Str(vn)) == ParamView::Namespaced(
                NodeView {
                    name: lm_name("enum"@),
                    fields: seq![("variant"@, ParamView::Str(vn))] + dyn_field_models(
                        d1->Variants_variants@[vix].1@,
                    ),
                },
            )
        }),
{
    let path = seq!["variant"@];
    assert(path.len() == 1 && path[0] == "variant"@);
}

} // verus!
