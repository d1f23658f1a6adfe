//! Builders for the built-in schema trees.
//!
//! Every built-in widget kind maps to a `livemod:<kind>` namespaced tree;
//! struct bindings compose these into `livemod:struct` / `livemod:fields`
//! trees.

use vstd::prelude::*;

use crate::data::fview;
use crate::data::lemma_fview_len;
use crate::data::Fields;
use crate::data::Namespaced;
use crate::data::NodeView;
use crate::data::ParamView;
use crate::data::Parameter;
use crate::data::Repr;
use crate::data::Value;

verus! {

/// Convenience type describing the built-in schema kinds.
///
/// Floating-point bounds are carried as their decimal text.
#[derive(Clone, Debug)]
pub enum BuiltinRepr {
    /// A signed integer with suggested bounds; maps to `livemod:sint`.
    SignedSlider { storage_min: i64, storage_max: i64, suggested_min: i64, suggested_max: i64 },
    /// An unsigned integer with suggested bounds; maps to `livemod:uint`.
    UnsignedSlider { storage_min: u64, storage_max: u64, suggested_min: u64, suggested_max: u64 },
    /// A floating-point number with suggested bounds; maps to `livemod:float`.
    FloatSlider {
        storage_min: String,
        storage_max: String,
        suggested_min: String,
        suggested_max: String,
    },
    /// A signed integer without suggested bounds; maps to `livemod:sint`.
    SignedInteger { min: i64, max: i64 },
    /// An unsigned integer without suggested bounds; maps to `livemod:uint`.
    UnsignedInteger { min: u64, max: u64 },
    /// A floating-point number without suggested bounds; maps to `livemod:float`.
    Float { min: String, max: String },
    /// A boolean; maps to `livemod:bool`.
    Bool,
    /// A string; maps to `livemod:string`.
    String { multiline: bool },
}

/// The name of a built-in tree: `livemod:<kind>`.
pub open spec fn lm_name(kind: Seq<char>) -> Seq<Seq<char>> {
    seq!["livemod"@, kind]
}

/// The schema tree a `BuiltinRepr` builds.
pub open spec fn builtin_node(b: BuiltinRepr) -> NodeView {
    match b {
        BuiltinRepr::Bool => NodeView { name: lm_name("bool"@), fields: Seq::empty() },
        BuiltinRepr::String { multiline } => NodeView {
            name: lm_name("string"@),
            fields: seq![("multiline"@, ParamView::Bool(multiline))],
        },
        BuiltinRepr::SignedInteger { min, max } => NodeView {
            name: lm_name("sint"@),
            fields: seq![
                ("min"@, ParamView::SignedInt(min)),
                ("max"@, ParamView::SignedInt(max)),
            ],
        },
        BuiltinRepr::UnsignedInteger { min, max } => NodeView {
            name: lm_name("uint"@),
            fields: seq![
                ("min"@, ParamView::UnsignedInt(min)),
                ("max"@, ParamView::UnsignedInt(max)),
            ],
        },
        BuiltinRepr::Float { min, max } => NodeView {
            name: lm_name("float"@),
            fields: seq![("min"@, ParamView::Float(min@)), ("max"@, ParamView::Float(max@))],
        },
        BuiltinRepr::SignedSlider { storage_min, storage_max, suggested_min, suggested_max } => NodeView {
            name: lm_name("sint"@),
            fields: seq![
                ("min"@, ParamView::SignedInt(storage_min)),
                ("max"@, ParamView::SignedInt(storage_max)),
                ("suggested_min"@, ParamView::SignedInt(suggested_min)),
                ("suggested_max"@, ParamView::SignedInt(suggested_max)),
            ],
        },
        BuiltinRepr::UnsignedSlider { storage_min, storage_max, suggested_min, suggested_max } => NodeView {
            name: lm_name("uint"@),
            fields: seq![
                ("min"@, ParamView::UnsignedInt(storage_min)),
                ("max"@, ParamView::UnsignedInt(storage_max)),
                ("suggested_min"@, ParamView::UnsignedInt(suggested_min)),
                ("suggested_max"@, ParamView::UnsignedInt(suggested_max)),
            ],
        },
        BuiltinRepr::FloatSlider { storage_min, storage_max, suggested_min, suggested_max } => NodeView {
            name: lm_name("float"@),
            fields: seq![
                ("min"@, ParamView::Float(storage_min@)),
                ("max"@, ParamView::Float(storage_max@)),
                ("suggested_min"@, ParamView::Float(suggested_min@)),
                ("suggested_max"@, ParamView::Float(suggested_max@)),
            ],
        },
    }
}

/// Build the two-part name `livemod:<kind>`.
pub(crate) fn lm_name_vec(kind: &str) -> (r: Vec<String>)
    ensures
        r.deep_view() =~= lm_name(kind@),
{
    let mut v: Vec<String> = Vec::new();
    v.push("livemod".to_owned());
    v.push(kind.to_owned());
    proof {
        assert(v.deep_view() =~= lm_name(kind@));
    }
    v
}

/// Build a field map directly from an entry vector.
pub(crate) fn fields_of_vec<T>(entries: Vec<(String, Parameter<T>)>) -> (r: Fields<T>)
    ensures
        r@ == fview(entries@),
{
    let r = Fields { entries };
    proof {
        crate::data::lemma_fields_view(r);
    }
    r
}

impl Namespaced<Repr> {
    /// The schema tree for a built-in widget kind.
    pub fn from_builtin(b: BuiltinRepr) -> (r: Namespaced<Repr>)
        ensures
            r@ == builtin_node(b),
    {
        let ghost bv = builtin_node(b);
        match b {
            BuiltinRepr::Bool => {
                let r = Namespaced::new(lm_name_vec("bool"), Fields::new());
                proof {
                    assert(r@ =~~= bv);
                }
                r
            },
            BuiltinRepr::String { multiline } => {
                let mut entries: Vec<(String, Parameter<Repr>)> = Vec::new();
                entries.push(("multiline".to_owned(), Parameter::Bool(multiline)));
                let r = Namespaced::new(lm_name_vec("string"), fields_of_vec(entries));
                proof {
                    lemma_fview_len(entries@);
                    assert(r@.fields =~= bv.fields);
                    assert(r@ =~~= bv);
                }
                r
            },
            BuiltinRepr::SignedInteger { min, max } => {
                let mut entries: Vec<(String, Parameter<Repr>)> = Vec::new();
                entries.push(("min".to_owned(), Parameter::SignedInt(min)));
                entries.push(("max".to_owned(), Parameter::SignedInt(max)));
                let r = Namespaced::new(lm_name_vec("sint"), fields_of_vec(entries));
                proof {
                    lemma_fview_len(entries@);
                    assert(r@.fields =~= bv.fields);
                    assert(r@ =~~= bv);
                }
                r
            },
            BuiltinRepr::UnsignedInteger { min, max } => {
                let mut entries: Vec<(String, Parameter<Repr>)> = Vec::new();
                entries.push(("min".to_owned(), Parameter::UnsignedInt(min)));
                entries.push(("max".to_owned(), Parameter::UnsignedInt(max)));
                let r = Namespaced::new(lm_name_vec("uint"), fields_of_vec(entries));
                proof {
                    lemma_fview_len(entries@);
                    assert(r@.fields =~= bv.fields);
                    assert(r@ =~~= bv);
                }
                r
            },
            BuiltinRepr::Float { min, max } => {
                let mut entries: Vec<(String, Parameter<Repr>)> = Vec::new();
                entries.push(("min".to_owned(), Parameter::Float(min)));
                entries.push(("max".to_owned(), Parameter::Float(max)));
                let r = Namespaced::new(lm_name_vec("float"), fields_of_vec(entries));
                proof {
                    lemma_fview_len(entries@);
                    assert(r@.fields =~= bv.fields);
                    assert(r@ =~~= bv);
                }
                r
            },
            BuiltinRepr::SignedSlider { storage_min, storage_max, suggested_min, suggested_max } => {
                let mut entries: Vec<(String, Parameter<Repr>)> = Vec::new();
                entries.push(("min".to_owned(), Parameter::SignedInt(storage_min)));
                entries.push(("max".to_owned(), Parameter::SignedInt(storage_max)));
                entries.push(("suggested_min".to_owned(), Parameter::SignedInt(suggested_min)));
                entries.push(("suggested_max".to_owned(), Parameter::SignedInt(suggested_max)));
                let r = Namespaced::new(lm_name_vec("sint"), fields_of_vec(entries));
                proof {
                    lemma_fview_len(entries@);
                    assert(r@.fields =~= bv.fields);
                    assert(r@ =~~= bv);
                }
                r
            },
            BuiltinRepr::UnsignedSlider { storage_min, storage_max, suggested_min, suggested_max } => {
                let mut entries: Vec<(String, Parameter<Repr>)> = Vec::new();
                entries.push(("min".to_owned(), Parameter::UnsignedInt(storage_min)));
                entries.push(("max".to_owned(), Parameter::UnsignedInt(storage_max)));
                entries.push(("suggested_min".to_owned(), Parameter::UnsignedInt(suggested_min)));
                entries.push(("suggested_max".to_owned(), Parameter::UnsignedInt(suggested_max)));
                let r = Namespaced::new(lm_name_vec("uint"), fields_of_vec(entries));
                proof {
                    lemma_fview_len(entries@);
                    assert(r@.fields =~= bv.fields);
                    assert(r@ =~~= bv);
                }
                r
            },
            BuiltinRepr::FloatSlider { storage_min, storage_max, suggested_min, suggested_max } => {
                let mut entries: Vec<(String, Parameter<Repr>)> = Vec::new();
                entries.push(("min".to_owned(), Parameter::Float(storage_min)));
                entries.push(("max".to_owned(), Parameter::Float(storage_max)));
                entries.push(("suggested_min".to_owned(), Parameter::Float(suggested_min)));
                entries.push(("suggested_max".to_owned(), Parameter::Float(suggested_max)));
                let r = Namespaced::new(lm_name_vec("float"), fields_of_vec(entries));
                proof {
                    lemma_fview_len(entries@);
                    assert(r@.fields =~= bv.fields);
                    assert(r@ =~~= bv);
                }
                r
            },
        }
    }
}

/// The `livemod:struct` schema tree of a named structure: its type name
/// and each field's schema, in order.
pub open spec fn struct_repr_node(name: Seq<char>, fields: Seq<(Seq<char>, NodeView)>) -> NodeView {
    NodeView {
        name: lm_name("struct"@),
        fields: seq![
            ("name"@, ParamView::Str(name)),
            (
                "fields"@,
                ParamView::Namespaced(
                    NodeView {
                        name: lm_name("fields"@),
                        fields: Seq::new(
                            fields.len(),
                            |i: int| (fields[i].0, ParamView::Namespaced(fields[i].1)),
                        ),
                    },
                ),
            ),
        ],
    }
}

/// The `livemod:fields` tree over the given entries.
pub open spec fn fields_node(entries: Seq<(Seq<char>, ParamView)>) -> NodeView {
    NodeView { name: lm_name("fields"@), fields: entries }
}

/// The `livemod:struct` tree over the given entries.
pub open spec fn struct_value_node(entries: Seq<(Seq<char>, ParamView)>) -> NodeView {
    NodeView { name: lm_name("struct"@), fields: entries }
}

impl Namespaced<Repr> {
    /// The schema of a fixed-shape structure: its type name and the
    /// ordered schemas of its fields.
    pub fn basic_structure_repr(name: &str, fields: &Vec<(String, Namespaced<Repr>)>) -> (r:
        Namespaced<Repr>)
        ensures
            r@ == struct_repr_node(
                name@,
                Seq::new(fields@.len(), |i: int| (fields@[i].0@, fields@[i].1@)),
            ),
    {
        let ghost fv = Seq::new(fields@.len(), |i: int| (fields@[i].0@, fields@[i].1@));
        let mut inner: Vec<(String, Parameter<Repr>)> = Vec::new();
        let n: usize = fields.len();
        let mut i: usize = 0;
        while i < n
            invariant
                n == fields@.len(),
                i <= n,
                inner@.len() == i,
                forall|j: int|
                    0 <= j < i ==> #[trigger] inner@[j].0@ == fields@[j].0@ && inner@[j].1@
                        == ParamView::Namespaced(fields@[j].1@),
            decreases n - i,
        {
            inner.push((fields[i].0.clone(), Parameter::Namespaced(fields[i].1.clone())));
            i += 1;
        }
        let fields_tree = Namespaced::new(lm_name_vec("fields"), fields_of_vec(inner));
        let mut outer: Vec<(String, Parameter<Repr>)> = Vec::new();
        outer.push(("name".to_owned(), Parameter::String(name.to_owned())));
        outer.push(("fields".to_owned(), Parameter::Namespaced(fields_tree)));
        let r = Namespaced::new(lm_name_vec("struct"), fields_of_vec(outer));
        proof {
            lemma_fview_len(inner@);
            lemma_fview_len(outer@);
            assert(fview(inner@) =~= struct_repr_node(name@, fv).fields[1].1->Namespaced_0.fields);
            assert(r@.fields =~= struct_repr_node(name@, fv).fields);
            assert(r@ =~~= struct_repr_node(name@, fv));
        }
        r
    }

    /// The `livemod:fields` schema tree over the given entries.
    pub fn fields_repr(fields: &Vec<(String, Parameter<Repr>)>) -> (r: Namespaced<Repr>)
        ensures
            r@ == fields_node(fview(fields@)),
    {
        let entries = crate::data::clone_entry_vec(fields);
        let r = Namespaced::new(lm_name_vec("fields"), fields_of_vec(entries));
        proof {
            assert(r@ =~~= fields_node(fview(fields@)));
        }
        r
    }
}

impl Namespaced<Value> {
    /// The `livemod:struct` value tree over the given entries.
    pub fn basic_structure_value(fields: &Vec<(String, Parameter<Value>)>) -> (r: Namespaced<
        Value,
    >)
        ensures
            r@ == struct_value_node(fview(fields@)),
    {
        let entries = crate::data::clone_entry_vec(fields);
        let r = Namespaced::new(lm_name_vec("struct"), fields_of_vec(entries));
        proof {
            assert(r@ =~~= struct_value_node(fview(fields@)));
        }
        r
    }

    /// The `livemod:fields` value tree over the given entries.
    pub fn fields_value(fields: &Vec<(String, Parameter<Value>)>) -> (r: Namespaced<Value>)
        ensures
            r@ == fields_node(fview(fields@)),
    {
        let entries = crate::data::clone_entry_vec(fields);
        let r = Namespaced::new(lm_name_vec("fields"), fields_of_vec(entries));
        proof {
            assert(r@ =~~= fields_node(fview(fields@)));
        }
        r
    }
}

} // verus!
