//! The reflection contract on the built-in bindings and the reflected
//! tree type.

use livemod::data::Fields;
use livemod::dynvalue::DynNode;
use livemod::map::TrackedMap;
use livemod::reflect::TriggerFn;
use livemod::{
    ActionTarget, DefaultRepr, LiveMod, LiveModCtor, LiveModDefault, LiveModRepr, Multiline,
    Namespaced, Parameter, Slider, Value,
};

fn field_target(path: &[&str]) -> ActionTarget {
    let mut full: Vec<String> = vec!["var".to_owned()];
    for p in path {
        full.push((*p).to_owned());
    }
    ActionTarget::from_name_and_fields(&full)
}

#[test]
fn u32_repr_and_value() {
    let v: u32 = 5;
    let repr = v.repr_default(&ActionTarget::This);
    assert_eq!(
        repr.serialize(),
        b"livemod:uint{min=u0;max=u4294967295;}".to_vec()
    );
    let val = v.get_self(&ActionTarget::This);
    assert_eq!(val.serialize(), b"u5".to_vec());
}

#[test]
fn u32_accept() {
    let mut v: u32 = 5;
    let changed = v.accept(&ActionTarget::This, Parameter::UnsignedInt(9));
    assert!(!changed);
    assert_eq!(v, 9);
}

#[test]
fn string_accept() {
    let mut s: String = "old".to_owned();
    let changed = s.accept(&ActionTarget::This, Parameter::String("new".to_owned()));
    assert!(!changed);
    assert_eq!(s, "new");
}

#[test]
fn vector_resize_grows_with_defaults() {
    let mut v: Vec<u32> = vec![1, 2];
    let changed = v.accept(&field_target(&["len"]), Parameter::UnsignedInt(3));
    assert!(changed);
    assert_eq!(v, vec![1, 2, 0]);
}

#[test]
fn vector_resize_shrinks_and_same_length_is_quiet() {
    let mut v: Vec<u32> = vec![1, 2, 3];
    let changed = v.accept(&field_target(&["len"]), Parameter::UnsignedInt(1));
    assert!(changed);
    assert_eq!(v, vec![1]);
    let unchanged = v.accept(&field_target(&["len"]), Parameter::UnsignedInt(1));
    assert!(!unchanged);
    assert_eq!(v, vec![1]);
}

#[test]
fn vector_element_accept() {
    let mut v: Vec<u32> = vec![1, 2];
    let changed = v.accept(&field_target(&["1"]), Parameter::UnsignedInt(7));
    assert!(!changed);
    assert_eq!(v, vec![1, 7]);
}

fn control(parts: &[&str], params: Vec<(&str, Parameter<Value>)>) -> Parameter<Value> {
    let mut fields = Fields::new();
    for (k, p) in params {
        fields.insert(k.to_owned(), p);
    }
    let name: Vec<String> = parts.iter().map(|s| (*s).to_owned()).collect();
    Parameter::Namespaced(Namespaced::new(name, fields))
}

#[test]
fn vector_remove_and_swap_controls() {
    let mut v: Vec<u32> = vec![10, 20, 30];
    let msg = control(
        &["livemod", "vec", "rm"],
        vec![("idx", Parameter::UnsignedInt(1))],
    );
    assert!(v.accept(&ActionTarget::This, msg));
    assert_eq!(v, vec![10, 30]);
    let msg2 = control(
        &["livemod", "vec", "swp"],
        vec![
            ("a", Parameter::UnsignedInt(0)),
            ("b", Parameter::UnsignedInt(1)),
        ],
    );
    assert!(v.accept(&ActionTarget::This, msg2));
    assert_eq!(v, vec![30, 10]);
}

#[test]
fn vector_repr_lists_elements_and_len() {
    let v: Vec<u32> = vec![1, 2];
    let repr = v.repr_default(&ActionTarget::This);
    let bytes = repr.serialize();
    let text = String::from_utf8(bytes).unwrap();
    assert!(text.starts_with("livemod:vec{"));
    assert!(text.contains("len=u2;"));
    assert!(text.contains("0=nlivemod:uint{"));
}

#[test]
fn trigger_records_and_polls() {
    let mut count: u64 = 0;
    let mut t = TriggerFn::new((), |_: &mut ()| {});
    assert_eq!(t.take_fired(), 0);
    let msg = control(&["livemod", "trigger"], vec![]);
    let changed = t.accept(&ActionTarget::This, msg);
    assert!(!changed);
    assert_eq!(t.take_fired(), 1);
    assert_eq!(t.take_fired(), 0);
    // the host runs the callback itself when polling
    count += t.take_fired();
    assert_eq!(count, 0);
}

#[test]
fn repr_providers() {
    let v: u32 = 3;
    let d = DefaultRepr.repr(&v);
    assert_eq!(
        d.serialize(),
        b"livemod:uint{min=u0;max=u4294967295;}".to_vec()
    );
    let s = Slider(1u32, 100u32).repr(&v);
    let text = String::from_utf8(s.serialize()).unwrap();
    assert!(text.contains("suggested_min=u1;"));
    assert!(text.contains("suggested_max=u100;"));
    let m = Multiline.repr(&"x".to_owned());
    assert_eq!(m.serialize(), b"livemod:string{multiline=t;}".to_vec());
}

fn sample_struct() -> DynNode {
    DynNode::Structure {
        name: "Point".to_owned(),
        fields: vec![
            ("x".to_owned(), DynNode::SignedInt(1)),
            ("y".to_owned(), DynNode::SignedInt(2)),
        ],
    }
}

fn sample_enum() -> DynNode {
    DynNode::Variants {
        name: "Shape".to_owned(),
        variants: vec![
            ("Dot".to_owned(), vec![]),
            (
                "Box".to_owned(),
                vec![
                    ("w".to_owned(), DynNode::UnsignedInt(3)),
                    ("h".to_owned(), DynNode::UnsignedInt(4)),
                ],
            ),
        ],
        active: 0,
        fields: vec![],
    }
}

#[test]
fn dyn_struct_path_resolution() {
    // nesting to depth two: outer.inner.y
    let outer = DynNode::Structure {
        name: "Outer".to_owned(),
        fields: vec![("inner".to_owned(), sample_struct())],
    };
    let y = outer.get_self(&field_target(&["inner", "y"]));
    assert_eq!(y.serialize(), b"i2".to_vec());
    let y_repr = outer.repr_default(&field_target(&["inner", "y"]));
    let text = String::from_utf8(y_repr.serialize()).unwrap();
    assert!(text.starts_with("livemod:sint{"));
}

#[test]
fn dyn_struct_accept_field() {
    let mut s = sample_struct();
    let changed = s.accept(&field_target(&["x"]), Parameter::SignedInt(9));
    assert!(!changed);
    let x = s.get_self(&field_target(&["x"]));
    assert_eq!(x.serialize(), b"i9".to_vec());
}

#[test]
fn dyn_enum_variant_switch() {
    let mut e = sample_enum();
    let changed = e.accept(
        &field_target(&["variant"]),
        Parameter::String("Box".to_owned()),
    );
    // a variant switch always reports a schema change
    assert!(changed);
    let w = e.get_self(&field_target(&["w"]));
    assert_eq!(w.serialize(), b"u3".to_vec());
    // switching again, back to the first variant, still reports a change
    let changed2 = e.accept(
        &field_target(&["variant"]),
        Parameter::String("Dot".to_owned()),
    );
    assert!(changed2);
    let val = e.get_self(&ActionTarget::This);
    let text = String::from_utf8(val.serialize()).unwrap();
    assert!(text.contains("variant=s3-Dot"));
}

#[test]
fn tracked_map_controls_and_edits() {
    let mut m: TrackedMap<u32, String> = TrackedMap::new();
    let insert = control(
        &["livemod", "map", "insert"],
        vec![("key", Parameter::UnsignedInt(7))],
    );
    assert!(m.accept(&ActionTarget::This, insert));
    assert_eq!(m.len(), 1);
    // the new entry holds the default value; edit it through its key text
    let edited = m.accept(
        &field_target(&["values", "u7"]),
        Parameter::String("seven".to_owned()),
    );
    assert!(!edited);
    let val = m.get_self(&field_target(&["values", "u7"]));
    assert_eq!(val.serialize(), b"s5-seven".to_vec());
    let whole = String::from_utf8(m.get_self(&ActionTarget::This).serialize()).unwrap();
    assert!(whole.starts_with("nlivemod:map{"));
    assert!(whole.contains("keys=nlivemod:fields{u7=u7;}"));
    let rm = control(
        &["livemod", "map", "rm"],
        vec![("key", Parameter::UnsignedInt(7))],
    );
    assert!(m.accept(&ActionTarget::This, rm));
    assert_eq!(m.len(), 0);
}

#[test]
fn validity_checks() {
    let v: u32 = 5;
    assert!(v.check_accept(&ActionTarget::This, &Parameter::UnsignedInt(9)));
    assert!(!v.check_accept(&ActionTarget::This, &Parameter::Bool(true)));
    assert!(!v.check_accept(&field_target(&["x"]), &Parameter::UnsignedInt(9)));
    assert!(v.check_target(&ActionTarget::This));
    assert!(!v.check_target(&field_target(&["x"])));

    let items: Vec<u32> = vec![1, 2];
    assert!(items.check_accept(&field_target(&["len"]), &Parameter::UnsignedInt(3)));
    assert!(items.check_accept(&field_target(&["1"]), &Parameter::UnsignedInt(7)));
    assert!(!items.check_accept(&field_target(&["2"]), &Parameter::UnsignedInt(7)));
    assert!(!items.check_accept(&field_target(&["nope"]), &Parameter::UnsignedInt(7)));
    assert!(!items.check_accept(&field_target(&["len"]), &Parameter::Bool(true)));
    assert!(items.check_target(&field_target(&["0"])));
    assert!(!items.check_target(&field_target(&["9"])));

    let e = sample_enum();
    assert!(e.check_accept(
        &field_target(&["variant"]),
        &Parameter::String("Box".to_owned()),
    ));
    assert!(!e.check_accept(
        &field_target(&["variant"]),
        &Parameter::String("Nope".to_owned()),
    ));
    let s = sample_struct();
    assert!(s.check_accept(&field_target(&["x"]), &Parameter::SignedInt(1)));
    assert!(!s.check_accept(&ActionTarget::This, &Parameter::SignedInt(1)));
    assert!(s.check_target(&field_target(&["y"])));
    assert!(!s.check_target(&field_target(&["z"])));

    let mut m: TrackedMap<u32, String> = TrackedMap::new();
    let insert = control(
        &["livemod", "map", "insert"],
        vec![("key", Parameter::UnsignedInt(7))],
    );
    assert!(m.check_accept(&ActionTarget::This, &insert));
    assert!(m.accept(&ActionTarget::This, insert));
    assert!(m.check_accept(
        &field_target(&["values", "u7"]),
        &Parameter::String("x".to_owned()),
    ));
    assert!(!m.check_accept(
        &field_target(&["values", "u8"]),
        &Parameter::String("x".to_owned()),
    ));
    assert!(!m.check_accept(
        &field_target(&["keys", "u7"]),
        &Parameter::UnsignedInt(9),
    ));
    assert!(m.check_target(&field_target(&["keys", "u7"])));
}

#[test]
fn trigger_check_accept() {
    let t = TriggerFn::new(0u32, ());
    let msg = control(&["livemod", "trigger"], vec![]);
    assert!(t.check_accept(&ActionTarget::This, &msg));
    let wrong = control(&["livemod", "vec", "rm"], vec![]);
    assert!(!t.check_accept(&ActionTarget::This, &wrong));
    assert!(!t.check_accept(&ActionTarget::This, &Parameter::Bool(true)));
}

#[test]
fn ctor_from_value() {
    assert_eq!(u32::from_value(Parameter::UnsignedInt(5)), Some(5));
    assert_eq!(u32::from_value(Parameter::Bool(true)), None);
    assert_eq!(bool::from_value(Parameter::Bool(true)), Some(true));
    assert_eq!(
        String::from_value(Parameter::String("a".to_owned())),
        Some("a".to_owned())
    );
    assert_eq!(u32::make_default(), 0);
}

#[test]
fn boxed_delegation() {
    let mut b: Box<u32> = Box::new(4);
    assert_eq!(b.get_self(&ActionTarget::This).serialize(), b"u4".to_vec());
    let changed = b.accept(&ActionTarget::This, Parameter::UnsignedInt(6));
    assert!(!changed);
    assert_eq!(*b, 6);
}

#[test]
fn action_target_paths() {
    let full = vec!["name".to_owned(), "a".to_owned(), "b".to_owned()];
    let t = ActionTarget::from_name_and_fields(&full);
    assert!(!t.is_this());
    let (first, rest) = t.strip_one_field().unwrap();
    assert_eq!(first, "a");
    let (second, last) = rest.strip_one_field().unwrap();
    assert_eq!(second, "b");
    assert!(last.is_this());
    assert!(last.strip_one_field().is_none());
    let short = vec!["name".to_owned()];
    assert!(ActionTarget::from_name_and_fields(&short).is_this());
}
