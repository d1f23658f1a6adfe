//! The reflection contract: every trackable type exposes its schema, its
//! live value tree, and an `accept` operation, all addressed by a path of
//! field names.
//!
//! Each implementation carries a mathematical model: `model()` is the value
//! tree that `get_self` returns for the value itself, `repr_model()` the
//! schema tree, and `accept_model` the value tree after an edit.  The
//! `accept` result says whether the schema may now differ from what was
//! last sent; callers must retransmit the schema exactly when it is true.

use vstd::prelude::*;

use crate::codec::dec_chars;
use crate::codec::key_num;
use crate::data::NodeView;
use crate::data::ParamView;
use crate::data::Parameter;
use crate::data::Repr;
use crate::data::Value;
use crate::repr::builtin_node;
use crate::repr::lm_name;
use crate::repr::BuiltinRepr;
use crate::target::ActionTarget;

verus! {

/// Data which can be tracked and edited through the wire protocol.
pub trait LiveMod {
    /// The implementation's structural invariant.
    spec fn inv(&self) -> bool;

    /// The live value tree: what `get_self` returns for the value itself.
    spec fn model(&self) -> ParamView;

    /// The schema tree: what `repr_default` returns for the value itself.
    spec fn repr_model(&self) -> NodeView;

    /// The paths the read operations accept.
    spec fn valid_target(&self, path: Seq<Seq<char>>) -> bool;

    /// The path-and-value pairs `accept` takes; anything else is a
    /// protocol error the caller must not commit.
    spec fn valid_accept(&self, path: Seq<Seq<char>>, value: ParamView) -> bool;

    /// The value tree at the addressed sub-value.
    spec fn get_model(&self, path: Seq<Seq<char>>) -> ParamView;

    /// The schema at the addressed sub-value.
    spec fn repr_at(&self, path: Seq<Seq<char>>) -> NodeView;

    /// The value tree after applying `value` at `path`.
    spec fn accept_model(&self, path: Seq<Seq<char>>, value: ParamView) -> ParamView;

    /// Whether applying `value` at `path` reports a possible schema change.
    spec fn accept_report(&self, path: Seq<Seq<char>>, value: ParamView) -> bool;

    /// The value itself is always addressable, and the empty path reads
    /// the models themselves.
    proof fn lemma_this_valid(&self)
        requires
            self.inv(),
        ensures
            self.valid_target(Seq::empty()),
            self.get_model(Seq::empty()) == self.model(),
            self.repr_at(Seq::empty()) == self.repr_model(),
    ;

    /// The schema for the addressed sub-value.
    fn repr_default(&self, target: &ActionTarget) -> (r: Namespaced<Repr>)
        requires
            self.inv(),
            target.wf(),
            self.valid_target(target.path()),
        ensures
            r@ == self.repr_at(target.path()),
    ;

    /// The live value at the addressed sub-value.
    fn get_self(&self, target: &ActionTarget) -> (r: Parameter<Value>)
        requires
            self.inv(),
            target.wf(),
            self.valid_target(target.path()),
        ensures
            r@ == self.get_model(target.path()),
    ;

    /// Apply `value` at the addressed location.  Returns whether the
    /// schema for this subtree may now differ; when it returns false the
    /// schema is unchanged.
    fn accept(&mut self, target: &ActionTarget, value: Parameter<Value>) -> (r: bool)
        requires
            old(self).inv(),
            target.wf(),
            old(self).valid_accept(target.path(), value@),
        ensures
            final(self).inv(),
            final(self).model() == old(self).accept_model(target.path(), value@),
            r == old(self).accept_report(target.path(), value@),
            !r ==> final(self).repr_model() == old(self).repr_model(),
    ;

    /// Executable form of `valid_target`, for callers outside the
    /// verifier, such as the worker threads, which must reject a
    /// malformed wire path as a fatal protocol error.
    fn check_target(&self, target: &ActionTarget) -> (r: bool)
        requires
            self.inv(),
            target.wf(),
        ensures
            r == self.valid_target(target.path()),
    ;

    /// Executable form of `valid_accept`: whether `accept` may be called
    /// with this path and value.
    fn check_accept(&self, target: &ActionTarget, value: &Parameter<Value>) -> (r: bool)
        requires
            self.inv(),
            target.wf(),
        ensures
            r == self.valid_accept(target.path(), value@),
    ;
}

/// Data with a value-independent schema that can be built from a wire
/// value, e.g. for use as a fresh map entry.
pub trait LiveModCtor: LiveMod + Sized {
    /// The value-independent schema.
    spec fn static_repr() -> NodeView;

    /// The wire values a fresh instance can be built from.
    spec fn ctor_ok(value: ParamView) -> bool;

    /// The model of the instance built from `value`.
    spec fn ctor_model(value: ParamView) -> ParamView;

    /// The schema, independent of any current value.
    fn repr_static() -> (r: Namespaced<Repr>)
        ensures
            r@ == Self::static_repr(),
    ;

    /// Build an instance from a wire value.
    fn from_value(value: Parameter<Value>) -> (r: Option<Self>)
        ensures
            r is Some <==> Self::ctor_ok(value@),
            r matches Some(x) ==> x.inv() && x.model() == Self::ctor_model(value@),
    ;
}

/// Data that can materialize a fresh default instance, e.g. when a vector
/// grows or a map inserts.
pub trait LiveModDefault: LiveMod + Sized {
    /// The model of a fresh default instance.
    spec fn default_model() -> ParamView;

    /// Build the default instance.
    fn make_default() -> (r: Self)
        ensures
            r.inv(),
            r.model() == Self::default_model(),
    ;
}

use crate::data::Namespaced;

impl LiveMod for bool {
    open spec fn inv(&self) -> bool {
        true
    }

    open spec fn model(&self) -> ParamView {
        ParamView::Bool(*self)
    }

    open spec fn repr_model(&self) -> NodeView {
        builtin_node(BuiltinRepr::Bool)
    }

    open spec fn valid_target(&self, path: Seq<Seq<char>>) -> bool {
        path.len() == 0
    }

    open spec fn valid_accept(&self, path: Seq<Seq<char>>, value: ParamView) -> bool {
        path.len() == 0 && value is Bool
    }

    open spec fn get_model(&self, path: Seq<Seq<char>>) -> ParamView {
        self.model()
    }

    open spec fn repr_at(&self, path: Seq<Seq<char>>) -> NodeView {
        self.repr_model()
    }

    open spec fn accept_model(&self, path: Seq<Seq<char>>, value: ParamView) -> ParamView {
        value
    }

    open spec fn accept_report(&self, path: Seq<Seq<char>>, value: ParamView) -> bool {
        false
    }

    proof fn lemma_this_valid(&self) {
    }

    fn repr_default(&self, target: &ActionTarget) -> (r: Namespaced<Repr>) {
        Namespaced::<Repr>::from_builtin(BuiltinRepr::Bool)
    }

    fn get_self(&self, target: &ActionTarget) -> (r: Parameter<Value>) {
        Parameter::Bool(*self)
    }

    fn accept(&mut self, target: &ActionTarget, value: Parameter<Value>) -> (r: bool) {
        match value {
            Parameter::Bool(v) => {
                *self = v;
            },
            _ => {
                proof {
                    assert(false);
                }
            },
        }
        false
    }
    fn check_target(&self, target: &ActionTarget) -> (r: bool) {
        target.is_this()
    }

    fn check_accept(&self, target: &ActionTarget, value: &Parameter<Value>) -> (r: bool) {
        target.is_this() && matches!(value, Parameter::Bool(_))
    }
}

impl LiveModCtor for bool {
    open spec fn static_repr() -> NodeView {
        builtin_node(BuiltinRepr::Bool)
    }

    open spec fn ctor_ok(value: ParamView) -> bool {
        value is Bool
    }

    open spec fn ctor_model(value: ParamView) -> ParamView {
        value
    }

    fn repr_static() -> (r: Namespaced<Repr>) {
        Namespaced::<Repr>::from_builtin(BuiltinRepr::Bool)
    }

    fn from_value(value: Parameter<Value>) -> (r: Option<bool>) {
        match value {
            Parameter::Bool(v) => Some(v),
            _ => None,
        }
    }
}

impl LiveModDefault for bool {
    open spec fn default_model() -> ParamView {
        ParamView::Bool(false)
    }

    fn make_default() -> (r: bool) {
        false
    }
}

impl LiveMod for String {
    open spec fn inv(&self) -> bool {
        true
    }

    open spec fn model(&self) -> ParamView {
        ParamView::Str(self@)
    }

    open spec fn repr_model(&self) -> NodeView {
        builtin_node(BuiltinRepr::String { multiline: false })
    }

    open spec fn valid_target(&self, path: Seq<Seq<char>>) -> bool {
        path.len() == 0
    }

    open spec fn valid_accept(&self, path: Seq<Seq<char>>, value: ParamView) -> bool {
        path.len() == 0 && value is Str
    }

    open spec fn get_model(&self, path: Seq<Seq<char>>) -> ParamView {
        self.model()
    }

    open spec fn repr_at(&self, path: Seq<Seq<char>>) -> NodeView {
        self.repr_model()
    }

    open spec fn accept_model(&self, path: Seq<Seq<char>>, value: ParamView) -> ParamView {
        value
    }

    open spec fn accept_report(&self, path: Seq<Seq<char>>, value: ParamView) -> bool {
        false
    }

    proof fn lemma_this_valid(&self) {
    }

    fn repr_default(&self, target: &ActionTarget) -> (r: Namespaced<Repr>) {
        Namespaced::<Repr>::from_builtin(BuiltinRepr::String { multiline: false })
    }

    fn get_self(&self, target: &ActionTarget) -> (r: Parameter<Value>) {
        Parameter::String(self.clone())
    }

    fn accept(&mut self, target: &ActionTarget, value: Parameter<Value>) -> (r: bool) {
        match value {
            Parameter::String(v) => {
                *self = v;
            },
            _ => {
                proof {
                    assert(false);
                }
            },
        }
        false
    }
    fn check_target(&self, target: &ActionTarget) -> (r: bool) {
        target.is_this()
    }

    fn check_accept(&self, target: &ActionTarget, value: &Parameter<Value>) -> (r: bool) {
        target.is_this() && matches!(value, Parameter::String(_))
    }
}

impl LiveModCtor for String {
    open spec fn static_repr() -> NodeView {
        builtin_node(BuiltinRepr::String { multiline: false })
    }

    open spec fn ctor_ok(value: ParamView) -> bool {
        value is Str
    }

    open spec fn ctor_model(value: ParamView) -> ParamView {
        value
    }

    fn repr_static() -> (r: Namespaced<Repr>) {
        Namespaced::<Repr>::from_builtin(BuiltinRepr::String { multiline: false })
    }

    fn from_value(value: Parameter<Value>) -> (r: Option<String>) {
        match value {
            Parameter::String(v) => Some(v),
            _ => None,
        }
    }
}

impl LiveModDefault for String {
    open spec fn default_model() -> ParamView {
        ParamView::Str(Seq::empty())
    }

    fn make_default() -> (r: String) {
        String::new()
    }
}


impl LiveMod for u8 {
    open spec fn inv(&self) -> bool {
        true
    }

    open spec fn model(&self) -> ParamView {
        ParamView::UnsignedInt((*self as u64))
    }

    open spec fn repr_model(&self) -> NodeView {
        builtin_node(BuiltinRepr::UnsignedInteger { min: u8::MIN as u64, max: u8::MAX as u64 })
    }

    open spec fn valid_target(&self, path: Seq<Seq<char>>) -> bool {
        path.len() == 0
    }

    open spec fn valid_accept(&self, path: Seq<Seq<char>>, value: ParamView) -> bool {
        path.len() == 0 && value is UnsignedInt
    }

    open spec fn get_model(&self, path: Seq<Seq<char>>) -> ParamView {
        self.model()
    }

    open spec fn repr_at(&self, path: Seq<Seq<char>>) -> NodeView {
        self.repr_model()
    }

    open spec fn accept_model(&self, path: Seq<Seq<char>>, value: ParamView) -> ParamView {
        ParamView::UnsignedInt(((value->UnsignedInt_0 as u8) as u64))
    }

    open spec fn accept_report(&self, path: Seq<Seq<char>>, value: ParamView) -> bool {
        false
    }

    proof fn lemma_this_valid(&self) {
    }

    fn repr_default(&self, target: &ActionTarget) -> (r: Namespaced<Repr>) {
        Namespaced::<Repr>::from_builtin(
            BuiltinRepr::UnsignedInteger { min: u8::MIN as u64, max: u8::MAX as u64 },
        )
    }

    fn get_self(&self, target: &ActionTarget) -> (r: Parameter<Value>) {
        Parameter::UnsignedInt(*self as u64)
    }

    fn accept(&mut self, target: &ActionTarget, value: Parameter<Value>) -> (r: bool) {
        match value {
            Parameter::UnsignedInt(v) => {
                *self = v as u8;
            },
            _ => {
                proof {
                    assert(false);
                }
            },
        }
        false
    }
    fn check_target(&self, target: &ActionTarget) -> (r: bool) {
        target.is_this()
    }

    fn check_accept(&self, target: &ActionTarget, value: &Parameter<Value>) -> (r: bool) {
        target.is_this() && matches!(value, Parameter::UnsignedInt(_))
    }
}

impl LiveModCtor for u8 {
    open spec fn static_repr() -> NodeView {
        builtin_node(BuiltinRepr::UnsignedInteger { min: u8::MIN as u64, max: u8::MAX as u64 })
    }

    open spec fn ctor_ok(value: ParamView) -> bool {
        value is UnsignedInt
    }

    open spec fn ctor_model(value: ParamView) -> ParamView {
        ParamView::UnsignedInt(((value->UnsignedInt_0 as u8) as u64))
    }

    fn repr_static() -> (r: Namespaced<Repr>) {
        Namespaced::<Repr>::from_builtin(
            BuiltinRepr::UnsignedInteger { min: u8::MIN as u64, max: u8::MAX as u64 },
        )
    }

    fn from_value(value: Parameter<Value>) -> (r: Option<u8>) {
        match value {
            Parameter::UnsignedInt(v) => Some(v as u8),
            _ => None,
        }
    }
}

impl LiveModDefault for u8 {
    open spec fn default_model() -> ParamView {
        ParamView::UnsignedInt(0)
    }

    fn make_default() -> (r: u8) {
        0u8
    }
}

impl LiveMod for u16 {
    open spec fn inv(&self) -> bool {
        true
    }

    open spec fn model(&self) -> ParamView {
        ParamView::UnsignedInt((*self as u64))
    }

    open spec fn repr_model(&self) -> NodeView {
        builtin_node(BuiltinRepr::UnsignedInteger { min: u16::MIN as u64, max: u16::MAX as u64 })
    }

    open spec fn valid_target(&self, path: Seq<Seq<char>>) -> bool {
        path.len() == 0
    }

    open spec fn valid_accept(&self, path: Seq<Seq<char>>, value: ParamView) -> bool {
        path.len() == 0 && value is UnsignedInt
    }

    open spec fn get_model(&self, path: Seq<Seq<char>>) -> ParamView {
        self.model()
    }

    open spec fn repr_at(&self, path: Seq<Seq<char>>) -> NodeView {
        self.repr_model()
    }

    open spec fn accept_model(&self, path: Seq<Seq<char>>, value: ParamView) -> ParamView {
        ParamView::UnsignedInt(((value->UnsignedInt_0 as u16) as u64))
    }

    open spec fn accept_report(&self, path: Seq<Seq<char>>, value: ParamView) -> bool {
        false
    }

    proof fn lemma_this_valid(&self) {
    }

    fn repr_default(&self, target: &ActionTarget) -> (r: Namespaced<Repr>) {
        Namespaced::<Repr>::from_builtin(
            BuiltinRepr::UnsignedInteger { min: u16::MIN as u64, max: u16::MAX as u64 },
        )
    }

    fn get_self(&self, target: &ActionTarget) -> (r: Parameter<Value>) {
        Parameter::UnsignedInt(*self as u64)
    }

    fn accept(&mut self, target: &ActionTarget, value: Parameter<Value>) -> (r: bool) {
        match value {
            Parameter::UnsignedInt(v) => {
                *self = v as u16;
            },
            _ => {
                proof {
                    assert(false);
                }
            },
        }
        false
    }
    fn check_target(&self, target: &ActionTarget) -> (r: bool) {
        target.is_this()
    }

    fn check_accept(&self, target: &ActionTarget, value: &Parameter<Value>) -> (r: bool) {
        target.is_this() && matches!(value, Parameter::UnsignedInt(_))
    }
}

impl LiveModCtor for u16 {
    open spec fn static_repr() -> NodeView {
        builtin_node(BuiltinRepr::UnsignedInteger { min: u16::MIN as u64, max: u16::MAX as u64 })
    }

    open spec fn ctor_ok(value: ParamView) -> bool {
        value is UnsignedInt
    }

    open spec fn ctor_model(value: ParamView) -> ParamView {
        ParamView::UnsignedInt(((value->UnsignedInt_0 as u16) as u64))
    }

    fn repr_static() -> (r: Namespaced<Repr>) {
        Namespaced::<Repr>::from_builtin(
            BuiltinRepr::UnsignedInteger { min: u16::MIN as u64, max: u16::MAX as u64 },
        )
    }

    fn from_value(value: Parameter<Value>) -> (r: Option<u16>) {
        match value {
            Parameter::UnsignedInt(v) => Some(v as u16),
            _ => None,
        }
    }
}

impl LiveModDefault for u16 {
    open spec fn default_model() -> ParamView {
        ParamView::UnsignedInt(0)
    }

    fn make_default() -> (r: u16) {
        0u16
    }
}

impl LiveMod for u32 {
    open spec fn inv(&self) -> bool {
        true
    }

    open spec fn model(&self) -> ParamView {
        ParamView::UnsignedInt((*self as u64))
    }

    open spec fn repr_model(&self) -> NodeView {
        builtin_node(BuiltinRepr::UnsignedInteger { min: u32::MIN as u64, max: u32::MAX as u64 })
    }

    open spec fn valid_target(&self, path: Seq<Seq<char>>) -> bool {
        path.len() == 0
    }

    open spec fn valid_accept(&self, path: Seq<Seq<char>>, value: ParamView) -> bool {
        path.len() == 0 && value is UnsignedInt
    }

    open spec fn get_model(&self, path: Seq<Seq<char>>) -> ParamView {
        self.model()
    }

    open spec fn repr_at(&self, path: Seq<Seq<char>>) -> NodeView {
        self.repr_model()
    }

    open spec fn accept_model(&self, path: Seq<Seq<char>>, value: ParamView) -> ParamView {
        ParamView::UnsignedInt(((value->UnsignedInt_0 as u32) as u64))
    }

    open spec fn accept_report(&self, path: Seq<Seq<char>>, value: ParamView) -> bool {
        false
    }

    proof fn lemma_this_valid(&self) {
    }

    fn repr_default(&self, target: &ActionTarget) -> (r: Namespaced<Repr>) {
        Namespaced::<Repr>::from_builtin(
            BuiltinRepr::UnsignedInteger { min: u32::MIN as u64, max: u32::MAX as u64 },
        )
    }

    fn get_self(&self, target: &ActionTarget) -> (r: Parameter<Value>) {
        Parameter::UnsignedInt(*self as u64)
    }

    fn accept(&mut self, target: &ActionTarget, value: Parameter<Value>) -> (r: bool) {
        match value {
            Parameter::UnsignedInt(v) => {
                *self = v as u32;
            },
            _ => {
                proof {
                    assert(false);
                }
            },
        }
        false
    }
    fn check_target(&self, target: &ActionTarget) -> (r: bool) {
        target.is_this()
    }

    fn check_accept(&self, target: &ActionTarget, value: &Parameter<Value>) -> (r: bool) {
        target.is_this() && matches!(value, Parameter::UnsignedInt(_))
    }
}

impl LiveModCtor for u32 {
    open spec fn static_repr() -> NodeView {
        builtin_node(BuiltinRepr::UnsignedInteger { min: u32::MIN as u64, max: u32::MAX as u64 })
    }

    open spec fn ctor_ok(value: ParamView) -> bool {
        value is UnsignedInt
    }

    open spec fn ctor_model(value: ParamView) -> ParamView {
        ParamView::UnsignedInt(((value->UnsignedInt_0 as u32) as u64))
    }

    fn repr_static() -> (r: Namespaced<Repr>) {
        Namespaced::<Repr>::from_builtin(
            BuiltinRepr::UnsignedInteger { min: u32::MIN as u64, max: u32::MAX as u64 },
        )
    }

    fn from_value(value: Parameter<Value>) -> (r: Option<u32>) {
        match value {
            Parameter::UnsignedInt(v) => Some(v as u32),
            _ => None,
        }
    }
}

impl LiveModDefault for u32 {
    open spec fn default_model() -> ParamView {
        ParamView::UnsignedInt(0)
    }

    fn make_default() -> (r: u32) {
        0u32
    }
}

impl LiveMod for u64 {
    open spec fn inv(&self) -> bool {
        true
    }

    open spec fn model(&self) -> ParamView {
        ParamView::UnsignedInt((*self as u64))
    }

    open spec fn repr_model(&self) -> NodeView {
        builtin_node(BuiltinRepr::UnsignedInteger { min: u64::MIN as u64, max: u64::MAX as u64 })
    }

    open spec fn valid_target(&self, path: Seq<Seq<char>>) -> bool {
        path.len() == 0
    }

    open spec fn valid_accept(&self, path: Seq<Seq<char>>, value: ParamView) -> bool {
        path.len() == 0 && value is UnsignedInt
    }

    open spec fn get_model(&self, path: Seq<Seq<char>>) -> ParamView {
        self.model()
    }

    open spec fn repr_at(&self, path: Seq<Seq<char>>) -> NodeView {
        self.repr_model()
    }

    open spec fn accept_model(&self, path: Seq<Seq<char>>, value: ParamView) -> ParamView {
        ParamView::UnsignedInt(((value->UnsignedInt_0 as u64) as u64))
    }

    open spec fn accept_report(&self, path: Seq<Seq<char>>, value: ParamView) -> bool {
        false
    }

    proof fn lemma_this_valid(&self) {
    }

    fn repr_default(&self, target: &ActionTarget) -> (r: Namespaced<Repr>) {
        Namespaced::<Repr>::from_builtin(
            BuiltinRepr::UnsignedInteger { min: u64::MIN as u64, max: u64::MAX as u64 },
        )
    }

    fn get_self(&self, target: &ActionTarget) -> (r: Parameter<Value>) {
        Parameter::UnsignedInt(*self as u64)
    }

    fn accept(&mut self, target: &ActionTarget, value: Parameter<Value>) -> (r: bool) {
        match value {
            Parameter::UnsignedInt(v) => {
                *self = v as u64;
            },
            _ => {
                proof {
                    assert(false);
                }
            },
        }
        false
    }
    fn check_target(&self, target: &ActionTarget) -> (r: bool) {
        target.is_this()
    }

    fn check_accept(&self, target: &ActionTarget, value: &Parameter<Value>) -> (r: bool) {
        target.is_this() && matches!(value, Parameter::UnsignedInt(_))
    }
}

impl LiveModCtor for u64 {
    open spec fn static_repr() -> NodeView {
        builtin_node(BuiltinRepr::UnsignedInteger { min: u64::MIN as u64, max: u64::MAX as u64 })
    }

    open spec fn ctor_ok(value: ParamView) -> bool {
        value is UnsignedInt
    }

    open spec fn ctor_model(value: ParamView) -> ParamView {
        ParamView::UnsignedInt(((value->UnsignedInt_0 as u64) as u64))
    }

    fn repr_static() -> (r: Namespaced<Repr>) {
        Namespaced::<Repr>::from_builtin(
            BuiltinRepr::UnsignedInteger { min: u64::MIN as u64, max: u64::MAX as u64 },
        )
    }

    fn from_value(value: Parameter<Value>) -> (r: Option<u64>) {
        match value {
            Parameter::UnsignedInt(v) => Some(v as u64),
            _ => None,
        }
    }
}

impl LiveModDefault for u64 {
    open spec fn default_model() -> ParamView {
        ParamView::UnsignedInt(0)
    }

    fn make_default() -> (r: u64) {
        0u64
    }
}

impl LiveMod for usize {
    open spec fn inv(&self) -> bool {
        true
    }

    open spec fn model(&self) -> ParamView {
        ParamView::UnsignedInt((*self as u64))
    }

    open spec fn repr_model(&self) -> NodeView {
        builtin_node(BuiltinRepr::UnsignedInteger { min: usize::MIN as u64, max: usize::MAX as u64 })
    }

    open spec fn valid_target(&self, path: Seq<Seq<char>>) -> bool {
        path.len() == 0
    }

    open spec fn valid_accept(&self, path: Seq<Seq<char>>, value: ParamView) -> bool {
        path.len() == 0 && value is UnsignedInt
    }

    open spec fn get_model(&self, path: Seq<Seq<char>>) -> ParamView {
        self.model()
    }

    open spec fn repr_at(&self, path: Seq<Seq<char>>) -> NodeView {
        self.repr_model()
    }

    open spec fn accept_model(&self, path: Seq<Seq<char>>, value: ParamView) -> ParamView {
        ParamView::UnsignedInt(((value->UnsignedInt_0 as usize) as u64))
    }

    open spec fn accept_report(&self, path: Seq<Seq<char>>, value: ParamView) -> bool {
        false
    }

    proof fn lemma_this_valid(&self) {
    }

    fn repr_default(&self, target: &ActionTarget) -> (r: Namespaced<Repr>) {
        Namespaced::<Repr>::from_builtin(
            BuiltinRepr::UnsignedInteger { min: usize::MIN as u64, max: usize::MAX as u64 },
        )
    }

    fn get_self(&self, target: &ActionTarget) -> (r: Parameter<Value>) {
        Parameter::UnsignedInt(*self as u64)
    }

    fn accept(&mut self, target: &ActionTarget, value: Parameter<Value>) -> (r: bool) {
        match value {
            Parameter::UnsignedInt(v) => {
                *self = v as usize;
            },
            _ => {
                proof {
                    assert(false);
                }
            },
        }
        false
    }
    fn check_target(&self, target: &ActionTarget) -> (r: bool) {
        target.is_this()
    }

    fn check_accept(&self, target: &ActionTarget, value: &Parameter<Value>) -> (r: bool) {
        target.is_this() && matches!(value, Parameter::UnsignedInt(_))
    }
}

impl LiveModCtor for usize {
    open spec fn static_repr() -> NodeView {
        builtin_node(BuiltinRepr::UnsignedInteger { min: usize::MIN as u64, max: usize::MAX as u64 })
    }

    open spec fn ctor_ok(value: ParamView) -> bool {
        value is UnsignedInt
    }

    open spec fn ctor_model(value: ParamView) -> ParamView {
        ParamView::UnsignedInt(((value->UnsignedInt_0 as usize) as u64))
    }

    fn repr_static() -> (r: Namespaced<Repr>) {
        Namespaced::<Repr>::from_builtin(
            BuiltinRepr::UnsignedInteger { min: usize::MIN as u64, max: usize::MAX as u64 },
        )
    }

    fn from_value(value: Parameter<Value>) -> (r: Option<usize>) {
        match value {
            Parameter::UnsignedInt(v) => Some(v as usize),
            _ => None,
        }
    }
}

impl LiveModDefault for usize {
    open spec fn default_model() -> ParamView {
        ParamView::UnsignedInt(0)
    }

    fn make_default() -> (r: usize) {
        0usize
    }
}

impl LiveMod for i8 {
    open spec fn inv(&self) -> bool {
        true
    }

    open spec fn model(&self) -> ParamView {
        ParamView::SignedInt((*self as i64))
    }

    open spec fn repr_model(&self) -> NodeView {
        builtin_node(BuiltinRepr::SignedInteger { min: i8::MIN as i64, max: i8::MAX as i64 })
    }

    open spec fn valid_target(&self, path: Seq<Seq<char>>) -> bool {
        path.len() == 0
    }

    open spec fn valid_accept(&self, path: Seq<Seq<char>>, value: ParamView) -> bool {
        path.len() == 0 && value is SignedInt
    }

    open spec fn get_model(&self, path: Seq<Seq<char>>) -> ParamView {
        self.model()
    }

    open spec fn repr_at(&self, path: Seq<Seq<char>>) -> NodeView {
        self.repr_model()
    }

    open spec fn accept_model(&self, path: Seq<Seq<char>>, value: ParamView) -> ParamView {
        ParamView::SignedInt(((value->SignedInt_0 as i8) as i64))
    }

    open spec fn accept_report(&self, path: Seq<Seq<char>>, value: ParamView) -> bool {
        false
    }

    proof fn lemma_this_valid(&self) {
    }

    fn repr_default(&self, target: &ActionTarget) -> (r: Namespaced<Repr>) {
        Namespaced::<Repr>::from_builtin(
            BuiltinRepr::SignedInteger { min: i8::MIN as i64, max: i8::MAX as i64 },
        )
    }

    fn get_self(&self, target: &ActionTarget) -> (r: Parameter<Value>) {
        Parameter::SignedInt(*self as i64)
    }

    fn accept(&mut self, target: &ActionTarget, value: Parameter<Value>) -> (r: bool) {
        match value {
            Parameter::SignedInt(v) => {
                *self = v as i8;
            },
            _ => {
                proof {
                    assert(false);
                }
            },
        }
        false
    }
    fn check_target(&self, target: &ActionTarget) -> (r: bool) {
        target.is_this()
    }

    fn check_accept(&self, target: &ActionTarget, value: &Parameter<Value>) -> (r: bool) {
        target.is_this() && matches!(value, Parameter::SignedInt(_))
    }
}

impl LiveModCtor for i8 {
    open spec fn static_repr() -> NodeView {
        builtin_node(BuiltinRepr::SignedInteger { min: i8::MIN as i64, max: i8::MAX as i64 })
    }

    open spec fn ctor_ok(value: ParamView) -> bool {
        value is SignedInt
    }

    open spec fn ctor_model(value: ParamView) -> ParamView {
        ParamView::SignedInt(((value->SignedInt_0 as i8) as i64))
    }

    fn repr_static() -> (r: Namespaced<Repr>) {
        Namespaced::<Repr>::from_builtin(
            BuiltinRepr::SignedInteger { min: i8::MIN as i64, max: i8::MAX as i64 },
        )
    }

    fn from_value(value: Parameter<Value>) -> (r: Option<i8>) {
        match value {
            Parameter::SignedInt(v) => Some(v as i8),
            _ => None,
        }
    }
}

impl LiveModDefault for i8 {
    open spec fn default_model() -> ParamView {
        ParamView::SignedInt(0)
    }

    fn make_default() -> (r: i8) {
        0i8
    }
}

impl LiveMod for i16 {
    open spec fn inv(&self) -> bool {
        true
    }

    open spec fn model(&self) -> ParamView {
        ParamView::SignedInt((*self as i64))
    }

    open spec fn repr_model(&self) -> NodeView {
        builtin_node(BuiltinRepr::SignedInteger { min: i16::MIN as i64, max: i16::MAX as i64 })
    }

    open spec fn valid_target(&self, path: Seq<Seq<char>>) -> bool {
        path.len() == 0
    }

    open spec fn valid_accept(&self, path: Seq<Seq<char>>, value: ParamView) -> bool {
        path.len() == 0 && value is SignedInt
    }

    open spec fn get_model(&self, path: Seq<Seq<char>>) -> ParamView {
        self.model()
    }

    open spec fn repr_at(&self, path: Seq<Seq<char>>) -> NodeView {
        self.repr_model()
    }

    open spec fn accept_model(&self, path: Seq<Seq<char>>, value: ParamView) -> ParamView {
        ParamView::SignedInt(((value->SignedInt_0 as i16) as i64))
    }

    open spec fn accept_report(&self, path: Seq<Seq<char>>, value: ParamView) -> bool {
        false
    }

    proof fn lemma_this_valid(&self) {
    }

    fn repr_default(&self, target: &ActionTarget) -> (r: Namespaced<Repr>) {
        Namespaced::<Repr>::from_builtin(
            BuiltinRepr::SignedInteger { min: i16::MIN as i64, max: i16::MAX as i64 },
        )
    }

    fn get_self(&self, target: &ActionTarget) -> (r: Parameter<Value>) {
        Parameter::SignedInt(*self as i64)
    }

    fn accept(&mut self, target: &ActionTarget, value: Parameter<Value>) -> (r: bool) {
        match value {
            Parameter::SignedInt(v) => {
                *self = v as i16;
            },
            _ => {
                proof {
                    assert(false);
                }
            },
        }
        false
    }
    fn check_target(&self, target: &ActionTarget) -> (r: bool) {
        target.is_this()
    }

    fn check_accept(&self, target: &ActionTarget, value: &Parameter<Value>) -> (r: bool) {
        target.is_this() && matches!(value, Parameter::SignedInt(_))
    }
}

impl LiveModCtor for i16 {
    open spec fn static_repr() -> NodeView {
        builtin_node(BuiltinRepr::SignedInteger { min: i16::MIN as i64, max: i16::MAX as i64 })
    }

    open spec fn ctor_ok(value: ParamView) -> bool {
        value is SignedInt
    }

    open spec fn ctor_model(value: ParamView) -> ParamView {
        ParamView::SignedInt(((value->SignedInt_0 as i16) as i64))
    }

    fn repr_static() -> (r: Namespaced<Repr>) {
        Namespaced::<Repr>::from_builtin(
            BuiltinRepr::SignedInteger { min: i16::MIN as i64, max: i16::MAX as i64 },
        )
    }

    fn from_value(value: Parameter<Value>) -> (r: Option<i16>) {
        match value {
            Parameter::SignedInt(v) => Some(v as i16),
            _ => None,
        }
    }
}

impl LiveModDefault for i16 {
    open spec fn default_model() -> ParamView {
        ParamView::SignedInt(0)
    }

    fn make_default() -> (r: i16) {
        0i16
    }
}

impl LiveMod for i32 {
    open spec fn inv(&self) -> bool {
        true
    }

    open spec fn model(&self) -> ParamView {
        ParamView::SignedInt((*self as i64))
    }

    open spec fn repr_model(&self) -> NodeView {
        builtin_node(BuiltinRepr::SignedInteger { min: i32::MIN as i64, max: i32::MAX as i64 })
    }

    open spec fn valid_target(&self, path: Seq<Seq<char>>) -> bool {
        path.len() == 0
    }

    open spec fn valid_accept(&self, path: Seq<Seq<char>>, value: ParamView) -> bool {
        path.len() == 0 && value is SignedInt
    }

    open spec fn get_model(&self, path: Seq<Seq<char>>) -> ParamView {
        self.model()
    }

    open spec fn repr_at(&self, path: Seq<Seq<char>>) -> NodeView {
        self.repr_model()
    }

    open spec fn accept_model(&self, path: Seq<Seq<char>>, value: ParamView) -> ParamView {
        ParamView::SignedInt(((value->SignedInt_0 as i32) as i64))
    }

    open spec fn accept_report(&self, path: Seq<Seq<char>>, value: ParamView) -> bool {
        false
    }

    proof fn lemma_this_valid(&self) {
    }

    fn repr_default(&self, target: &ActionTarget) -> (r: Namespaced<Repr>) {
        Namespaced::<Repr>::from_builtin(
            BuiltinRepr::SignedInteger { min: i32::MIN as i64, max: i32::MAX as i64 },
        )
    }

    fn get_self(&self, target: &ActionTarget) -> (r: Parameter<Value>) {
        Parameter::SignedInt(*self as i64)
    }

    fn accept(&mut self, target: &ActionTarget, value: Parameter<Value>) -> (r: bool) {
        match value {
            Parameter::SignedInt(v) => {
                *self = v as i32;
            },
            _ => {
                proof {
                    assert(false);
                }
            },
        }
        false
    }
    fn check_target(&self, target: &ActionTarget) -> (r: bool) {
        target.is_this()
    }

    fn check_accept(&self, target: &ActionTarget, value: &Parameter<Value>) -> (r: bool) {
        target.is_this() && matches!(value, Parameter::SignedInt(_))
    }
}

impl LiveModCtor for i32 {
    open spec fn static_repr() -> NodeView {
        builtin_node(BuiltinRepr::SignedInteger { min: i32::MIN as i64, max: i32::MAX as i64 })
    }

    open spec fn ctor_ok(value: ParamView) -> bool {
        value is SignedInt
    }

    open spec fn ctor_model(value: ParamView) -> ParamView {
        ParamView::SignedInt(((value->SignedInt_0 as i32) as i64))
    }

    fn repr_static() -> (r: Namespaced<Repr>) {
        Namespaced::<Repr>::from_builtin(
            BuiltinRepr::SignedInteger { min: i32::MIN as i64, max: i32::MAX as i64 },
        )
    }

    fn from_value(value: Parameter<Value>) -> (r: Option<i32>) {
        match value {
            Parameter::SignedInt(v) => Some(v as i32),
            _ => None,
        }
    }
}

impl LiveModDefault for i32 {
    open spec fn default_model() -> ParamView {
        ParamView::SignedInt(0)
    }

    fn make_default() -> (r: i32) {
        0i32
    }
}

impl LiveMod for i64 {
    open spec fn inv(&self) -> bool {
        true
    }

    open spec fn model(&self) -> ParamView {
        ParamView::SignedInt((*self as i64))
    }

    open spec fn repr_model(&self) -> NodeView {
        builtin_node(BuiltinRepr::SignedInteger { min: i64::MIN as i64, max: i64::MAX as i64 })
    }

    open spec fn valid_target(&self, path: Seq<Seq<char>>) -> bool {
        path.len() == 0
    }

    open spec fn valid_accept(&self, path: Seq<Seq<char>>, value: ParamView) -> bool {
        path.len() == 0 && value is SignedInt
    }

    open spec fn get_model(&self, path: Seq<Seq<char>>) -> ParamView {
        self.model()
    }

    open spec fn repr_at(&self, path: Seq<Seq<char>>) -> NodeView {
        self.repr_model()
    }

    open spec fn accept_model(&self, path: Seq<Seq<char>>, value: ParamView) -> ParamView {
        ParamView::SignedInt(((value->SignedInt_0 as i64) as i64))
    }

    open spec fn accept_report(&self, path: Seq<Seq<char>>, value: ParamView) -> bool {
        false
    }

    proof fn lemma_this_valid(&self) {
    }

    fn repr_default(&self, target: &ActionTarget) -> (r: Namespaced<Repr>) {
        Namespaced::<Repr>::from_builtin(
            BuiltinRepr::SignedInteger { min: i64::MIN as i64, max: i64::MAX as i64 },
        )
    }

    fn get_self(&self, target: &ActionTarget) -> (r: Parameter<Value>) {
        Parameter::SignedInt(*self as i64)
    }

    fn accept(&mut self, target: &ActionTarget, value: Parameter<Value>) -> (r: bool) {
        match value {
            Parameter::SignedInt(v) => {
                *self = v as i64;
            },
            _ => {
                proof {
                    assert(false);
                }
            },
        }
        false
    }
    fn check_target(&self, target: &ActionTarget) -> (r: bool) {
        target.is_this()
    }

    fn check_accept(&self, target: &ActionTarget, value: &Parameter<Value>) -> (r: bool) {
        target.is_this() && matches!(value, Parameter::SignedInt(_))
    }
}

impl LiveModCtor for i64 {
    open spec fn static_repr() -> NodeView {
        builtin_node(BuiltinRepr::SignedInteger { min: i64::MIN as i64, max: i64::MAX as i64 })
    }

    open spec fn ctor_ok(value: ParamView) -> bool {
        value is SignedInt
    }

    open spec fn ctor_model(value: ParamView) -> ParamView {
        ParamView::SignedInt(((value->SignedInt_0 as i64) as i64))
    }

    fn repr_static() -> (r: Namespaced<Repr>) {
        Namespaced::<Repr>::from_builtin(
            BuiltinRepr::SignedInteger { min: i64::MIN as i64, max: i64::MAX as i64 },
        )
    }

    fn from_value(value: Parameter<Value>) -> (r: Option<i64>) {
        match value {
            Parameter::SignedInt(v) => Some(v as i64),
            _ => None,
        }
    }
}

impl LiveModDefault for i64 {
    open spec fn default_model() -> ParamView {
        ParamView::SignedInt(0)
    }

    fn make_default() -> (r: i64) {
        0i64
    }
}

impl LiveMod for isize {
    open spec fn inv(&self) -> bool {
        true
    }

    open spec fn model(&self) -> ParamView {
        ParamView::SignedInt((*self as i64))
    }

    open spec fn repr_model(&self) -> NodeView {
        builtin_node(BuiltinRepr::SignedInteger { min: isize::MIN as i64, max: isize::MAX as i64 })
    }

    open spec fn valid_target(&self, path: Seq<Seq<char>>) -> bool {
        path.len() == 0
    }

    open spec fn valid_accept(&self, path: Seq<Seq<char>>, value: ParamView) -> bool {
        path.len() == 0 && value is SignedInt
    }

    open spec fn get_model(&self, path: Seq<Seq<char>>) -> ParamView {
        self.model()
    }

    open spec fn repr_at(&self, path: Seq<Seq<char>>) -> NodeView {
        self.repr_model()
    }

    open spec fn accept_model(&self, path: Seq<Seq<char>>, value: ParamView) -> ParamView {
        ParamView::SignedInt(((value->SignedInt_0 as isize) as i64))
    }

    open spec fn accept_report(&self, path: Seq<Seq<char>>, value: ParamView) -> bool {
        false
    }

    proof fn lemma_this_valid(&self) {
    }

    fn repr_default(&self, target: &ActionTarget) -> (r: Namespaced<Repr>) {
        Namespaced::<Repr>::from_builtin(
            BuiltinRepr::SignedInteger { min: isize::MIN as i64, max: isize::MAX as i64 },
        )
    }

    fn get_self(&self, target: &ActionTarget) -> (r: Parameter<Value>) {
        Parameter::SignedInt(*self as i64)
    }

    fn accept(&mut self, target: &ActionTarget, value: Parameter<Value>) -> (r: bool) {
        match value {
            Parameter::SignedInt(v) => {
                *self = v as isize;
            },
            _ => {
                proof {
                    assert(false);
                }
            },
        }
        false
    }
    fn check_target(&self, target: &ActionTarget) -> (r: bool) {
        target.is_this()
    }

    fn check_accept(&self, target: &ActionTarget, value: &Parameter<Value>) -> (r: bool) {
        target.is_this() && matches!(value, Parameter::SignedInt(_))
    }
}

impl LiveModCtor for isize {
    open spec fn static_repr() -> NodeView {
        builtin_node(BuiltinRepr::SignedInteger { min: isize::MIN as i64, max: isize::MAX as i64 })
    }

    open spec fn ctor_ok(value: ParamView) -> bool {
        value is SignedInt
    }

    open spec fn ctor_model(value: ParamView) -> ParamView {
        ParamView::SignedInt(((value->SignedInt_0 as isize) as i64))
    }

    fn repr_static() -> (r: Namespaced<Repr>) {
        Namespaced::<Repr>::from_builtin(
            BuiltinRepr::SignedInteger { min: isize::MIN as i64, max: isize::MAX as i64 },
        )
    }

    fn from_value(value: Parameter<Value>) -> (r: Option<isize>) {
        match value {
            Parameter::SignedInt(v) => Some(v as isize),
            _ => None,
        }
    }
}

impl LiveModDefault for isize {
    open spec fn default_model() -> ParamView {
        ParamView::SignedInt(0)
    }

    fn make_default() -> (r: isize) {
        0isize
    }
}

impl<T: LiveMod> LiveMod for Box<T> {
    open spec fn inv(&self) -> bool {
        (**self).inv()
    }

    open spec fn model(&self) -> ParamView {
        (**self).model()
    }

    open spec fn repr_model(&self) -> NodeView {
        (**self).repr_model()
    }

    open spec fn valid_target(&self, path: Seq<Seq<char>>) -> bool {
        (**self).valid_target(path)
    }

    open spec fn valid_accept(&self, path: Seq<Seq<char>>, value: ParamView) -> bool {
        (**self).valid_accept(path, value)
    }

    open spec fn get_model(&self, path: Seq<Seq<char>>) -> ParamView {
        (**self).get_model(path)
    }

    open spec fn repr_at(&self, path: Seq<Seq<char>>) -> NodeView {
        (**self).repr_at(path)
    }

    open spec fn accept_model(&self, path: Seq<Seq<char>>, value: ParamView) -> ParamView {
        (**self).accept_model(path, value)
    }

    open spec fn accept_report(&self, path: Seq<Seq<char>>, value: ParamView) -> bool {
        (**self).accept_report(path, value)
    }

    proof fn lemma_this_valid(&self) {
        (**self).lemma_this_valid();
    }

    fn repr_default(&self, target: &ActionTarget) -> (r: Namespaced<Repr>) {
        (**self).repr_default(target)
    }

    fn get_self(&self, target: &ActionTarget) -> (r: Parameter<Value>) {
        (**self).get_self(target)
    }

    fn accept(&mut self, target: &ActionTarget, value: Parameter<Value>) -> (r: bool) {
        (**self).accept(target, value)
    }
    fn check_target(&self, target: &ActionTarget) -> (r: bool) {
        (**self).check_target(target)
    }

    fn check_accept(&self, target: &ActionTarget, value: &Parameter<Value>) -> (r: bool) {
        (**self).check_accept(target, value)
    }
}

impl<T: LiveModCtor> LiveModCtor for Box<T> {
    open spec fn static_repr() -> NodeView {
        T::static_repr()
    }

    open spec fn ctor_ok(value: ParamView) -> bool {
        T::ctor_ok(value)
    }

    open spec fn ctor_model(value: ParamView) -> ParamView {
        T::ctor_model(value)
    }

    fn repr_static() -> (r: Namespaced<Repr>) {
        T::repr_static()
    }

    fn from_value(value: Parameter<Value>) -> (r: Option<Box<T>>) {
        match T::from_value(value) {
            Some(x) => Some(Box::new(x)),
            None => None,
        }
    }
}

/// The models of a sequence of tracked values.
pub open spec fn elem_models<T: LiveMod>(v: Seq<T>) -> Seq<ParamView> {
    Seq::new(v.len(), |i: int| v[i].model())
}

/// The `livemod:vec` value tree over the given element models, keyed by
/// decimal index.
pub open spec fn vec_value_node(ms: Seq<ParamView>) -> NodeView {
    NodeView {
        name: lm_name("vec"@),
        fields: Seq::new(ms.len(), |i: int| (dec_chars(i as nat), ms[i])),
    }
}

/// The `livemod:vec` schema tree: one entry per index plus `len`.
pub open spec fn vec_repr_node<T: LiveMod>(v: Seq<T>) -> NodeView {
    NodeView {
        name: lm_name("vec"@),
        fields: Seq::new(
            v.len(),
            |i: int| (dec_chars(i as nat), ParamView::Namespaced(v[i].repr_model())),
        ).push(("len"@, ParamView::UnsignedInt(v.len() as u64))),
    }
}

/// Look up a key in a field-entry sequence.
pub open spec fn lookup(s: Seq<(Seq<char>, ParamView)>, k: Seq<char>) -> Option<ParamView> {
    if crate::data::find_key(s, k) >= 0 {
        Some(s[crate::data::find_key(s, k)].1)
    } else {
        None
    }
}

/// The element models after a vector control message.
pub open spec fn vec_control_models<T: LiveMod>(v: Seq<T>, n: NodeView) -> Seq<ParamView> {
    let ms = elem_models(v);
    if n.name[2] == "rm"@ {
        ms.remove(lookup(n.fields, "idx"@)->Some_0->UnsignedInt_0 as int)
    } else if n.name[2] == "swp"@ {
        let a = lookup(n.fields, "a"@)->Some_0->UnsignedInt_0 as int;
        let b = lookup(n.fields, "b"@)->Some_0->UnsignedInt_0 as int;
        ms.update(a, ms[b]).update(b, ms[a])
    } else {
        ms
    }
}

/// Whether a vector control message is acceptable on the current state.
pub open spec fn vec_control_ok<T: LiveMod>(v: Seq<T>, value: ParamView) -> bool {
    &&& value matches ParamView::Namespaced(n)
    &&& n.name.len() >= 3
    &&& (if n.name[2] == "rm"@ {
        &&& lookup(n.fields, "idx"@) matches Some(ParamView::UnsignedInt(i))
        &&& i < v.len()
    } else if n.name[2] == "swp"@ {
        &&& lookup(n.fields, "a"@) matches Some(ParamView::UnsignedInt(a))
        &&& a < v.len()
        &&& lookup(n.fields, "b"@) matches Some(ParamView::UnsignedInt(b))
        &&& b < v.len()
    } else {
        true
    })
}

impl<T: LiveMod + LiveModDefault> LiveMod for Vec<T> {
    open spec fn inv(&self) -> bool {
        forall|i: int| 0 <= i < self@.len() ==> #[trigger] self@[i].inv()
    }

    open spec fn model(&self) -> ParamView {
        ParamView::Namespaced(vec_value_node(elem_models(self@)))
    }

    open spec fn repr_model(&self) -> NodeView {
        vec_repr_node(self@)
    }

    open spec fn valid_target(&self, path: Seq<Seq<char>>) -> bool {
        path.len() == 0 || {
            &&& key_num(path[0]) matches Some(ix)
            &&& ix < self@.len()
            &&& self@[key_num(path[0])->Some_0 as int].valid_target(path.skip(1))
        }
    }

    open spec fn valid_accept(&self, path: Seq<Seq<char>>, value: ParamView) -> bool {
        if path.len() == 0 {
            vec_control_ok(self@, value)
        } else if path[0] == "len"@ {
            path.len() == 1 && value is UnsignedInt
        } else {
            &&& key_num(path[0]) matches Some(ix)
            &&& ix < self@.len()
            &&& self@[key_num(path[0])->Some_0 as int].valid_accept(path.skip(1), value)
        }
    }

    open spec fn get_model(&self, path: Seq<Seq<char>>) -> ParamView {
        if path.len() == 0 {
            self.model()
        } else {
            self@[key_num(path[0])->Some_0 as int].get_model(path.skip(1))
        }
    }

    open spec fn repr_at(&self, path: Seq<Seq<char>>) -> NodeView {
        if path.len() == 0 {
            self.repr_model()
        } else {
            self@[key_num(path[0])->Some_0 as int].repr_at(path.skip(1))
        }
    }

    open spec fn accept_model(&self, path: Seq<Seq<char>>, value: ParamView) -> ParamView {
        if path.len() == 0 {
            ParamView::Namespaced(vec_value_node(vec_control_models(self@, value->Namespaced_0)))
        } else if path[0] == "len"@ {
            let new_len = value->UnsignedInt_0 as usize;
            ParamView::Namespaced(
                vec_value_node(
                    Seq::new(
                        new_len as nat,
                        |i: int|
                            if i < self@.len() {
                                elem_models(self@)[i]
                            } else {
                                T::default_model()
                            },
                    ),
                ),
            )
        } else {
            let ix = key_num(path[0])->Some_0 as int;
            ParamView::Namespaced(
                vec_value_node(
                    elem_models(self@).update(ix, self@[ix].accept_model(path.skip(1), value)),
                ),
            )
        }
    }

    open spec fn accept_report(&self, path: Seq<Seq<char>>, value: ParamView) -> bool {
        if path.len() == 0 {
            true
        } else if path[0] == "len"@ {
            value->UnsignedInt_0 as usize != self@.len()
        } else {
            self@[key_num(path[0])->Some_0 as int].accept_report(path.skip(1), value)
        }
    }

    proof fn lemma_this_valid(&self) {
    }

    fn repr_default(&self, target: &ActionTarget) -> (r: Namespaced<Repr>) {
        match target.strip_one_field() {
            None => {
                let n: usize = self.len();
                let mut entries: Vec<(String, Parameter<Repr>)> = Vec::new();
                let mut i: usize = 0;
                while i < n
                    invariant
                        n == self@.len(),
                        i <= n,
                        self.inv(),
                        entries@.len() == i,
                        forall|j: int|
                            0 <= j < i ==> #[trigger] entries@[j].0@ == dec_chars(j as nat)
                                && entries@[j].1@ == ParamView::Namespaced(self@[j].repr_model()),
                    decreases n - i,
                {
                    proof {
                        self@[i as int].lemma_this_valid();
                    }
                    let key = crate::codec::u64_to_string(i as u64);
                    let this = ActionTarget::This;
                    let node = self[i].repr_default(&this);
                    entries.push((key, Parameter::Namespaced(node)));
                    i += 1;
                }
                entries.push(("len".to_owned(), Parameter::UnsignedInt(n as u64)));
                let r = Namespaced::new(
                    crate::repr::lm_name_vec("vec"),
                    crate::repr::fields_of_vec(entries),
                );
                proof {
                    crate::data::lemma_fview_len(entries@);
                    assert(r@.fields =~= vec_repr_node(self@).fields);
                    assert(r@ =~~= vec_repr_node(self@));
                }
                r
            },
            Some((field, field_target)) => {
                let vlen: usize = self.len();
                let ix = match parse_key_index(&field) {
                    Some(ix) => ix,
                    None => {
                        proof {
                            assert(false);
                        }
                        0
                    },
                };
                self[ix as usize].repr_default(&field_target)
            },
        }
    }

    fn get_self(&self, target: &ActionTarget) -> (r: Parameter<Value>) {
        match target.strip_one_field() {
            None => {
                let n: usize = self.len();
                let mut entries: Vec<(String, Parameter<Value>)> = Vec::new();
                let mut i: usize = 0;
                while i < n
                    invariant
                        n == self@.len(),
                        i <= n,
                        self.inv(),
                        entries@.len() == i,
                        forall|j: int|
                            0 <= j < i ==> #[trigger] entries@[j].0@ == dec_chars(j as nat)
                                && entries@[j].1@ == self@[j].model(),
                    decreases n - i,
                {
                    proof {
                        self@[i as int].lemma_this_valid();
                    }
                    let key = crate::codec::u64_to_string(i as u64);
                    let this = ActionTarget::This;
                    let v = self[i].get_self(&this);
                    entries.push((key, v));
                    i += 1;
                }
                let r = Namespaced::new(
                    crate::repr::lm_name_vec("vec"),
                    crate::repr::fields_of_vec(entries),
                );
                proof {
                    crate::data::lemma_fview_len(entries@);
                    assert(r@.fields =~= vec_value_node(elem_models(self@)).fields);
                    assert(r@ =~~= vec_value_node(elem_models(self@)));
                }
                Parameter::Namespaced(r)
            },
            Some((field, field_target)) => {
                let vlen: usize = self.len();
                let ix = match parse_key_index(&field) {
                    Some(ix) => ix,
                    None => {
                        proof {
                            assert(false);
                        }
                        0
                    },
                };
                self[ix as usize].get_self(&field_target)
            },
        }
    }

    #[verifier::rlimit(100)]
    fn accept(&mut self, target: &ActionTarget, value: Parameter<Value>) -> (r: bool) {
        match target.strip_one_field() {
            Some((field, field_target)) => {
                let len_key: String = "len".to_owned();
                if crate::data::string_eq(&field, &len_key) {
                    let new_len: usize = match value {
                        Parameter::UnsignedInt(v) => v as usize,
                        _ => {
                            proof {
                                assert(false);
                            }
                            0
                        },
                    };
                    let old_len: usize = self.len();
                    if new_len == old_len {
                        proof {
                            assert(elem_models(self@) =~= Seq::new(
                                new_len as nat,
                                |i: int|
                                    if i < old(self)@.len() {
                                        elem_models(old(self)@)[i]
                                    } else {
                                        T::default_model()
                                    },
                            ));
                        }
                        false
                    } else if new_len < old_len {
                        self.truncate(new_len);
                        proof {
                            assert(elem_models(self@) =~= Seq::new(
                                new_len as nat,
                                |i: int|
                                    if i < old(self)@.len() {
                                        elem_models(old(self)@)[i]
                                    } else {
                                        T::default_model()
                                    },
                            ));
                        }
                        true
                    } else {
                        while self.len() < new_len
                            invariant
                                old_len <= self@.len() <= new_len,
                                self@.len() >= old(self)@.len(),
                                forall|i: int|
                                    0 <= i < old(self)@.len() ==> #[trigger] self@[i]
                                        == old(self)@[i],
                                forall|i: int|
                                    old(self)@.len() <= i < self@.len() ==> (#[trigger] self@[i]).inv()
                                        && self@[i].model() == T::default_model(),
                                self.inv(),
                            decreases new_len - self@.len(),
                        {
                            self.push(T::make_default());
                        }
                        proof {
                            assert(elem_models(self@) =~= Seq::new(
                                new_len as nat,
                                |i: int|
                                    if i < old(self)@.len() {
                                        elem_models(old(self)@)[i]
                                    } else {
                                        T::default_model()
                                    },
                            ));
                        }
                        true
                    }
                } else {
                    let vlen: usize = self.len();
                    let ix: usize = match parse_key_index(&field) {
                        Some(ix) => ix as usize,
                        None => {
                            proof {
                                assert(false);
                            }
                            0
                        },
                    };
                    let mut elem = self.remove(ix);
                    let ghost elem_before = elem;
                    let r = elem.accept(&field_target, value);
                    let ghost elem_after = elem;
                    self.insert(ix, elem);
                    proof {
                        assert(elem_before == old(self)@[ix as int]);
                        assert(self@[ix as int] == elem_after);
                        assert(self@ =~= old(self)@.update(
                            ix as int,
                            self@[ix as int],
                        ));
                        assert(elem_models(self@) =~= elem_models(old(self)@).update(
                            ix as int,
                            self@[ix as int].model(),
                        ));
                        if !r {
                            assert(elem_after.repr_model() == elem_before.repr_model());
                            assert forall|j: int|
                                0 <= j < vec_repr_node(self@).fields.len() implies vec_repr_node(
                                self@,
                            ).fields[j] == vec_repr_node(old(self)@).fields[j] by {
                                assert(self@.len() == old(self)@.len());
                                if j < self@.len() {
                                    assert(vec_repr_node(self@).fields[j] == (
                                        dec_chars(j as nat),
                                        ParamView::Namespaced(self@[j].repr_model()),
                                    ));
                                    assert(vec_repr_node(old(self)@).fields[j] == (
                                        dec_chars(j as nat),
                                        ParamView::Namespaced(old(self)@[j].repr_model()),
                                    ));
                                    if j != ix {
                                        assert(self@[j] == old(self)@[j]);
                                    } else {
                                        assert(self@[j].repr_model() == old(self)@[j].repr_model());
                                    }
                                } else {
                                    assert(vec_repr_node(self@).fields[j] == (
                                        "len"@,
                                        ParamView::UnsignedInt(self@.len() as u64),
                                    ));
                                    assert(vec_repr_node(old(self)@).fields[j] == (
                                        "len"@,
                                        ParamView::UnsignedInt(old(self)@.len() as u64),
                                    ));
                                }
                            }
                            assert(vec_repr_node(self@).fields =~= vec_repr_node(old(self)@).fields);
                            assert(vec_repr_node(self@) =~~= vec_repr_node(old(self)@));
                        }
                    }
                    r
                }
            },
            None => {
                let n = match value {
                    Parameter::Namespaced(n) => n,
                    _ => {
                        proof {
                            assert(false);
                        }
                        return true;
                    },
                };
                let ghost nv = n@;
                let op = &n.name[2];
                proof {
                    assert(n.name.deep_view()[2] == n.name@[2]@);
                }
                let rm_key: String = "rm".to_owned();
                let swp_key: String = "swp".to_owned();
                if crate::data::string_eq(op, &rm_key) {
                    let idx_key: String = "idx".to_owned();
                    proof {
                        crate::data::lemma_find_key(n.parameters@, idx_key@);
                    }
                    let ix: usize = match n.parameters.get(&idx_key) {
                        Some(p) => match p {
                            Parameter::UnsignedInt(v) => (*v) as usize,
                            _ => {
                                proof {
                                    assert(false);
                                }
                                0
                            },
                        },
                        None => {
                            proof {
                                assert(false);
                            }
                            0
                        },
                    };
                    let cur_len: usize = self.len();
                    proof {
                        assert(old(self)@.len() == cur_len);
                        assert(ix as int == lookup(nv.fields, "idx"@)->Some_0->UnsignedInt_0 as int);
                    }
                    self.remove(ix);
                    proof {
                        assert(nv.name[2] == "rm"@);
                        assert(self@ =~= old(self)@.remove(ix as int));
                        let after = vec_control_models(old(self)@, nv);
                        assert(after == elem_models(old(self)@).remove(ix as int));
                        assert forall|j: int|
                            0 <= j < elem_models(self@).len() implies elem_models(self@)[j]
                            == after[j] by {
                            if j < ix {
                                assert(self@[j] == old(self)@[j]);
                            } else {
                                assert(self@[j] == old(self)@[j + 1]);
                            }
                        }
                        assert(elem_models(self@) =~= vec_control_models(old(self)@, nv));
                    }
                    true
                } else if crate::data::string_eq(op, &swp_key) {
                    let a_key: String = "a".to_owned();
                    let b_key: String = "b".to_owned();
                    proof {
                        crate::data::lemma_find_key(n.parameters@, a_key@);
                        crate::data::lemma_find_key(n.parameters@, b_key@);
                    }
                    let a: usize = match n.parameters.get(&a_key) {
                        Some(p) => match p {
                            Parameter::UnsignedInt(v) => (*v) as usize,
                            _ => {
                                proof {
                                    assert(false);
                                }
                                0
                            },
                        },
                        None => {
                            proof {
                                assert(false);
                            }
                            0
                        },
                    };
                    let b: usize = match n.parameters.get(&b_key) {
                        Some(p) => match p {
                            Parameter::UnsignedInt(v) => (*v) as usize,
                            _ => {
                                proof {
                                    assert(false);
                                }
                                0
                            },
                        },
                        None => {
                            proof {
                                assert(false);
                            }
                            0
                        },
                    };
                    let cur_len: usize = self.len();
                    proof {
                        assert(old(self)@.len() == cur_len);
                    }
                    if a != b {
                        let lo: usize = if a < b {
                            a
                        } else {
                            b
                        };
                        let hi: usize = if a < b {
                            b
                        } else {
                            a
                        };
                        let x_hi = self.remove(hi);
                        let x_lo = self.remove(lo);
                        self.insert(lo, x_hi);
                        self.insert(hi, x_lo);
                        proof {
                            assert(self@ =~= old(self)@.update(lo as int, old(self)@[hi as int])
                                .update(hi as int, old(self)@[lo as int]));
                        }
                    }
                    proof {
                        assert(nv.name[2] == "swp"@);
                        assert(nv.name[2] != "rm"@);
                        assert(a as int == lookup(nv.fields, "a"@)->Some_0->UnsignedInt_0 as int);
                        assert(b as int == lookup(nv.fields, "b"@)->Some_0->UnsignedInt_0 as int);
                        let after = vec_control_models(old(self)@, nv);
                        assert(after == elem_models(old(self)@).update(
                            a as int,
                            elem_models(old(self)@)[b as int],
                        ).update(b as int, elem_models(old(self)@)[a as int]));
                        assert forall|j: int|
                            0 <= j < elem_models(self@).len() implies elem_models(self@)[j]
                            == after[j] by {
                            if a != b {
                                if j != a && j != b {
                                    assert(self@[j] == old(self)@[j]);
                                } else if j == a {
                                    assert(self@[j] == old(self)@[b as int]);
                                } else {
                                    assert(self@[j] == old(self)@[a as int]);
                                }
                            }
                        }
                        assert(elem_models(self@) =~= vec_control_models(old(self)@, nv));
                    }
                    true
                } else {
                    proof {
                        assert(elem_models(self@) =~= vec_control_models(old(self)@, nv));
                    }
                    true
                }
            },
        }
    }

    fn check_target(&self, target: &ActionTarget) -> (r: bool) {
        match target.strip_one_field() {
            None => true,
            Some((field, rest)) => {
                let vlen: usize = self.len();
                match parse_key_index(&field) {
                    None => false,
                    Some(ix) => {
                        if ix < vlen as u64 {
                            proof {
                                assert(self@[ix as int].inv());
                            }
                            self[ix as usize].check_target(&rest)
                        } else {
                            false
                        }
                    },
                }
            },
        }
    }

    fn check_accept(&self, target: &ActionTarget, value: &Parameter<Value>) -> (r: bool) {
        match target.strip_one_field() {
            None => {
                let vlen: usize = self.len();
                match value {
                    Parameter::Namespaced(n) => {
                        if n.name.len() < 3 {
                            return false;
                        }
                        proof {
                            assert(n.name.deep_view()[2] == n.name@[2]@);
                        }
                        let rm_key: String = "rm".to_owned();
                        let swp_key: String = "swp".to_owned();
                        let op = &n.name[2];
                        if crate::data::string_eq(op, &rm_key) {
                            let idx_key: String = "idx".to_owned();
                            proof {
                                crate::data::lemma_find_key(n.parameters@, idx_key@);
                            }
                            match n.parameters.get(&idx_key) {
                                Some(p) => match p {
                                    Parameter::UnsignedInt(v) => *v < vlen as u64,
                                    _ => false,
                                },
                                None => false,
                            }
                        } else if crate::data::string_eq(op, &swp_key) {
                            let a_key: String = "a".to_owned();
                            let b_key: String = "b".to_owned();
                            proof {
                                crate::data::lemma_find_key(n.parameters@, a_key@);
                                crate::data::lemma_find_key(n.parameters@, b_key@);
                            }
                            let a_ok = match n.parameters.get(&a_key) {
                                Some(p) => match p {
                                    Parameter::UnsignedInt(v) => *v < vlen as u64,
                                    _ => false,
                                },
                                None => false,
                            };
                            let b_ok = match n.parameters.get(&b_key) {
                                Some(p) => match p {
                                    Parameter::UnsignedInt(v) => *v < vlen as u64,
                                    _ => false,
                                },
                                None => false,
                            };
                            a_ok && b_ok
                        } else {
                            true
                        }
                    },
                    _ => false,
                }
            },
            Some((field, rest)) => {
                let len_key: String = "len".to_owned();
                proof {
                    assert(target.path()[0] == field@);
                }
                if crate::data::string_eq(&field, &len_key) {
                    if rest.is_this() {
                        proof {
                            assert(rest.path().len() == 0);
                            assert(rest.path() == target.path().skip(1));
                            assert(target.path().len() == 1);
                        }
                        matches!(value, Parameter::UnsignedInt(_))
                    } else {
                        proof {
                            assert(rest matches ActionTarget::Field(_));
                            assert(rest.path().len() >= 1);
                            assert(rest.path() == target.path().skip(1));
                            assert(target.path().len() >= 2);
                        }
                        false
                    }
                } else {
                    let vlen: usize = self.len();
                    match parse_key_index(&field) {
                        None => false,
                        Some(ix) => {
                            if ix < vlen as u64 {
                                proof {
                                    assert(self@[ix as int].inv());
                                }
                                self[ix as usize].check_accept(&rest, value)
                            } else {
                                false
                            }
                        },
                    }
                }
            },
        }
    }
}

/// Parse a field key as a decimal index.
pub fn parse_key_index(s: &String) -> (r: Option<u64>)
    ensures
        r == (match key_num(s@) {
            Some(v) => if v <= u64::MAX {
                Some(v as u64)
            } else {
                None::<u64>
            },
            None => None::<u64>,
        }),
{
    let n: usize = s.as_str().unicode_len();
    if n == 0 {
        return None;
    }
    let ghost digits = s@.map(|i: int, c: char| c as u8);
    let mut acc: u64 = 0;
    let mut i: usize = 0;
    proof {
        assert(digits.take(0) =~= Seq::<u8>::empty());
    }
    while i < n
        invariant
            n == s@.len(),
            n >= 1,
            i <= n,
            digits == s@.map(|j: int, c: char| c as u8),
            forall|j: int| 0 <= j < i ==> '0' <= #[trigger] s@[j] <= '9',
            forall|j: int| 0 <= j < i ==> crate::codec::is_digit(#[trigger] digits[j]),
            acc == crate::codec::digits_val(digits.take(i as int)),
        decreases n - i,
    {
        let c = s.as_str().get_char(i);
        if c < '0' || c > '9' {
            return None;
        }
        let d: u32 = c as u32 - 48;
        proof {
            assert(s@[i as int] as u8 == (s@[i as int] as u32) as u8);
            assert(digits[i as int] == s@[i as int] as u8);
            assert(digits[i as int] - 48 == d);
            crate::codec::lemma_digits_val_take(digits, i as int);
        }
        if acc > (u64::MAX - (d as u64)) / 10 {
            proof {
                if key_num(s@) is Some {
                    assert forall|j: int| 0 <= j < digits.len() implies crate::codec::is_digit(
                        #[trigger] digits[j],
                    ) by {
                        assert('0' <= s@[j] <= '9');
                        assert(s@[j] as u8 == (s@[j] as u32) as u8);
                        assert(digits[j] == s@[j] as u8);
                    }
                    crate::codec::lemma_digits_val_mono(digits, i + 1, digits.len() as int);
                    assert(digits.take(digits.len() as int) =~= digits);
                }
            }
            return None;
        }
        acc = acc * 10 + (d as u64);
        i += 1;
    }
    proof {
        assert(digits.take(digits.len() as int) =~= digits);
    }
    Some(acc)
}

/// Law: `accept` of a new length `k` on a vector of length `m` yields
/// length `k`, keeps the first `min(m, k)` elements unchanged, fills new
/// slots with the element default, and reports a schema change exactly
/// when `k != m`.
pub proof fn lemma_vector_resize<T: LiveMod + LiveModDefault>(v: Vec<T>, k: u64)
    ensures
        ({
            let after = v.accept_model(seq!["len"@], ParamView::UnsignedInt(k));
            let m = v@.len();
            let kk = (k as usize) as nat;
            &&& after matches ParamView::Namespaced(nv)
            &&& nv.name == lm_name("vec"@)
            &&& nv.fields.len() == kk
            &&& forall|i: int|
                0 <= i < kk && i < m ==> #[trigger] nv.fields[i] == (
                    dec_chars(i as nat),
                    v@[i].model(),
                )
            &&& forall|i: int|
                m <= i < kk ==> #[trigger] nv.fields[i] == (
                    dec_chars(i as nat),
                    T::default_model(),
                )
        }),
        v.accept_report(seq!["len"@], ParamView::UnsignedInt(k)) == ((k as usize) != v@.len()),
{
    let path = seq!["len"@];
    assert(path.len() == 1);
    assert(path[0] == "len"@);
}

/// The `livemod:trigger` tree.
pub open spec fn trigger_node() -> NodeView {
    NodeView { name: lm_name("trigger"@), fields: Seq::empty() }
}

/// A stateless action the viewer can fire.
///
/// `accept` records the trigger in `fired`; the host polls `take_fired`
/// and runs `func` on `arg` once per recorded trigger, since the crate's
/// verified code cannot call a mutable closure.  The recording is part of
/// `accept`'s contract: each accepted trigger message raises the pending
/// count by one (saturating), with `arg` and `func` untouched.
pub struct TriggerFn<A, F> {
    pub arg: A,
    pub func: F,
    pub fired: u64,
}

impl<A, F> TriggerFn<A, F> {
    /// The number of trigger messages accepted and not yet polled.
    pub open spec fn fired_count(&self) -> u64 {
        self.fired
    }

    pub fn new(arg: A, func: F) -> (r: TriggerFn<A, F>)
        ensures
            r.arg == arg,
            r.func == func,
            r.fired_count() == 0,
    {
        TriggerFn { arg, func, fired: 0 }
    }

    /// Take the pending trigger count, resetting it to zero.
    pub fn take_fired(&mut self) -> (n: u64)
        ensures
            n == old(self).fired_count(),
            final(self).fired_count() == 0,
            final(self).arg == old(self).arg,
            final(self).func == old(self).func,
    {
        let n = self.fired;
        self.fired = 0;
        n
    }
}

impl<A, F> LiveMod for TriggerFn<A, F> {
    open spec fn inv(&self) -> bool {
        true
    }

    open spec fn model(&self) -> ParamView {
        ParamView::Namespaced(trigger_node())
    }

    open spec fn repr_model(&self) -> NodeView {
        trigger_node()
    }

    open spec fn valid_target(&self, path: Seq<Seq<char>>) -> bool {
        path.len() == 0
    }

    open spec fn valid_accept(&self, path: Seq<Seq<char>>, value: ParamView) -> bool {
        &&& path.len() == 0
        &&& value matches ParamView::Namespaced(n)
        &&& n.name.len() >= 2
        &&& n.name[1] == "trigger"@
    }

    open spec fn get_model(&self, path: Seq<Seq<char>>) -> ParamView {
        self.model()
    }

    open spec fn repr_at(&self, path: Seq<Seq<char>>) -> NodeView {
        self.repr_model()
    }

    open spec fn accept_model(&self, path: Seq<Seq<char>>, value: ParamView) -> ParamView {
        self.model()
    }

    open spec fn accept_report(&self, path: Seq<Seq<char>>, value: ParamView) -> bool {
        false
    }

    proof fn lemma_this_valid(&self) {
    }

    fn repr_default(&self, target: &ActionTarget) -> (r: Namespaced<Repr>) {
        let r = Namespaced::new(crate::repr::lm_name_vec("trigger"), crate::data::Fields::new());
        proof {
            assert(r@ =~~= trigger_node());
        }
        r
    }

    fn get_self(&self, target: &ActionTarget) -> (r: Parameter<Value>) {
        let r = Namespaced::new(crate::repr::lm_name_vec("trigger"), crate::data::Fields::new());
        proof {
            assert(r@ =~~= trigger_node());
        }
        Parameter::Namespaced(r)
    }

    fn accept(&mut self, target: &ActionTarget, value: Parameter<Value>) -> (r: bool)
        ensures
            final(self).fired_count() as int == (if old(self).fired_count() < u64::MAX {
                old(self).fired_count() + 1
            } else {
                u64::MAX as int
            }),
            final(self).arg == old(self).arg,
            final(self).func == old(self).func,
    {
        if self.fired < u64::MAX {
            self.fired = self.fired + 1;
        }
        false
    }

    fn check_target(&self, target: &ActionTarget) -> (r: bool) {
        target.is_this()
    }

    fn check_accept(&self, target: &ActionTarget, value: &Parameter<Value>) -> (r: bool) {
        if !target.is_this() {
            return false;
        }
        match value {
            Parameter::Namespaced(n) => {
                if n.name.len() < 2 {
                    return false;
                }
                proof {
                    assert(n.name.deep_view()[1] == n.name@[1]@);
                }
                let tkey: String = "trigger".to_owned();
                crate::data::string_eq(&n.name[1], &tkey)
            },
            _ => false,
        }
    }
}

/// Provider of an alternate schema for a tracked type.
pub trait LiveModRepr<T> {
    /// When the provider may be asked for a schema of `cur`.
    spec fn repr_req(&self, cur: &T) -> bool;

    /// The schema this provider yields for `cur`.
    spec fn repr_spec(&self, cur: &T) -> NodeView;

    /// Produce the schema for the current value.
    fn repr(&self, cur: &T) -> (r: Namespaced<Repr>)
        requires
            self.repr_req(cur),
        ensures
            r@ == self.repr_spec(cur),
    ;
}

/// The default provider: a type's own schema.
pub struct DefaultRepr;

impl<T: LiveMod> LiveModRepr<T> for DefaultRepr {
    open spec fn repr_req(&self, cur: &T) -> bool {
        cur.inv()
    }

    open spec fn repr_spec(&self, cur: &T) -> NodeView {
        cur.repr_model()
    }

    fn repr(&self, cur: &T) -> (r: Namespaced<Repr>) {
        proof {
            cur.lemma_this_valid();
        }
        let this = ActionTarget::This;
        cur.repr_default(&this)
    }
}

/// Slider schema for numeric values: the suggested bounds.
pub struct Slider<T>(pub T, pub T);

impl LiveModRepr<i64> for Slider<i64> {
    open spec fn repr_req(&self, cur: &i64) -> bool {
        true
    }

    open spec fn repr_spec(&self, cur: &i64) -> NodeView {
        builtin_node(
            BuiltinRepr::SignedSlider {
                storage_min: i64::MIN,
                storage_max: i64::MAX,
                suggested_min: self.0,
                suggested_max: self.1,
            },
        )
    }

    fn repr(&self, cur: &i64) -> (r: Namespaced<Repr>) {
        Namespaced::<Repr>::from_builtin(
            BuiltinRepr::SignedSlider {
                storage_min: i64::MIN,
                storage_max: i64::MAX,
                suggested_min: self.0,
                suggested_max: self.1,
            },
        )
    }
}

impl LiveModRepr<u64> for Slider<u64> {
    open spec fn repr_req(&self, cur: &u64) -> bool {
        true
    }

    open spec fn repr_spec(&self, cur: &u64) -> NodeView {
        builtin_node(
            BuiltinRepr::UnsignedSlider {
                storage_min: u64::MIN,
                storage_max: u64::MAX,
                suggested_min: self.0,
                suggested_max: self.1,
            },
        )
    }

    fn repr(&self, cur: &u64) -> (r: Namespaced<Repr>) {
        Namespaced::<Repr>::from_builtin(
            BuiltinRepr::UnsignedSlider {
                storage_min: u64::MIN,
                storage_max: u64::MAX,
                suggested_min: self.0,
                suggested_max: self.1,
            },
        )
    }
}

impl LiveModRepr<u32> for Slider<u32> {
    open spec fn repr_req(&self, cur: &u32) -> bool {
        true
    }

    open spec fn repr_spec(&self, cur: &u32) -> NodeView {
        builtin_node(
            BuiltinRepr::UnsignedSlider {
                storage_min: u32::MIN as u64,
                storage_max: u32::MAX as u64,
                suggested_min: self.0 as u64,
                suggested_max: self.1 as u64,
            },
        )
    }

    fn repr(&self, cur: &u32) -> (r: Namespaced<Repr>) {
        Namespaced::<Repr>::from_builtin(
            BuiltinRepr::UnsignedSlider {
                storage_min: u32::MIN as u64,
                storage_max: u32::MAX as u64,
                suggested_min: self.0 as u64,
                suggested_max: self.1 as u64,
            },
        )
    }
}

impl LiveModRepr<i32> for Slider<i32> {
    open spec fn repr_req(&self, cur: &i32) -> bool {
        true
    }

    open spec fn repr_spec(&self, cur: &i32) -> NodeView {
        builtin_node(
            BuiltinRepr::SignedSlider {
                storage_min: i32::MIN as i64,
                storage_max: i32::MAX as i64,
                suggested_min: self.0 as i64,
                suggested_max: self.1 as i64,
            },
        )
    }

    fn repr(&self, cur: &i32) -> (r: Namespaced<Repr>) {
        Namespaced::<Repr>::from_builtin(
            BuiltinRepr::SignedSlider {
                storage_min: i32::MIN as i64,
                storage_max: i32::MAX as i64,
                suggested_min: self.0 as i64,
                suggested_max: self.1 as i64,
            },
        )
    }
}

/// Multiline string schema.
pub struct Multiline;

impl LiveModRepr<String> for Multiline {
    open spec fn repr_req(&self, cur: &String) -> bool {
        true
    }

    open spec fn repr_spec(&self, cur: &String) -> NodeView {
        builtin_node(BuiltinRepr::String { multiline: true })
    }

    fn repr(&self, cur: &String) -> (r: Namespaced<Repr>) {
        Namespaced::<Repr>::from_builtin(BuiltinRepr::String { multiline: true })
    }
}

} // verus!
