//! The registry, the dirty-tracking gate, and the wire frames, ending in
//! the end-to-end message scenario.

use livemod::registry::{
    frame_new, frame_remove, frame_repr, frame_sentinel, frame_update, parse_set_message,
    parse_trigger_message,
};
use livemod::{ActionTarget, LiveMod, Parameter, Registry, UpdateGate};

#[test]
fn registry_lifecycle() {
    let mut r: Registry<u32> = Registry::new();
    assert_eq!(r.len(), 0);
    r.register("Count".to_owned(), 1);
    r.register("Items".to_owned(), 2);
    assert_eq!(r.len(), 2);
    assert_eq!(r.get(&"Count".to_owned()), Some(&1));
    assert_eq!(r.get(&"Items".to_owned()), Some(&2));
    assert_eq!(r.get(&"Other".to_owned()), None);
    // re-registering a name keeps its position and takes the new handle
    r.register("Count".to_owned(), 9);
    assert_eq!(r.len(), 2);
    assert_eq!(r.get(&"Count".to_owned()), Some(&9));
    assert!(r.unregister(&"Count".to_owned()));
    assert!(!r.unregister(&"Count".to_owned()));
    assert_eq!(r.get(&"Count".to_owned()), None);
    assert_eq!(r.len(), 1);
}

#[test]
fn gate_emits_exactly_once() {
    // a guard that is never dereferenced mutably emits nothing
    let mut quiet = UpdateGate::new();
    drop(quiet);
    // one mutable dereference emits exactly one update
    let mut g = UpdateGate::new();
    assert!(g.fire());
    // further dereferences in the same guard emit nothing more
    assert!(!g.fire());
    assert!(!g.fire());
    quiet = UpdateGate::new();
    assert!(quiet.armed);
}

#[test]
fn frames_exact_bytes() {
    let name = "Count".to_owned();
    let repr = b"livemod:uint{min=u0;max=u4294967295;}".to_vec();
    let value = b"u5".to_vec();
    let n = frame_new(&name, &repr, &value);
    assert_eq!(
        n,
        b"nCount;37-livemod:uint{min=u0;max=u4294967295;};2-u5\n".to_vec()
    );
    let s = frame_update(&name, &b"u9".to_vec());
    assert_eq!(s, b"sCount;2-u9\n".to_vec());
    let u = frame_repr(&name, &repr, &value);
    assert_eq!(
        u,
        b"uCount;37-livemod:uint{min=u0;max=u4294967295;};2-u5\n".to_vec()
    );
    assert_eq!(frame_remove(&name), b"rCount\n".to_vec());
    assert_eq!(frame_sentinel(), vec![0u8]);
}

#[test]
fn parse_set_requests() {
    let req = parse_set_message(&b"Count".to_vec(), &b"u9".to_vec()).unwrap();
    assert_eq!(req.path, vec!["Count".to_owned()]);
    assert!(matches!(req.value, Parameter::UnsignedInt(9)));
    let nested = parse_set_message(&b"Items.len".to_vec(), &b"u3".to_vec()).unwrap();
    assert_eq!(nested.path, vec!["Items".to_owned(), "len".to_owned()]);
    let bad = parse_set_message(&b"Count".to_vec(), &b"zz".to_vec());
    assert!(bad.is_err());
}

#[test]
fn parse_trigger_requests() {
    let path = parse_trigger_message(&b"Exit".to_vec()).unwrap();
    assert_eq!(path, vec!["Exit".to_owned()]);
    let nested = parse_trigger_message(&b"Outer.fire".to_vec()).unwrap();
    assert_eq!(nested, vec!["Outer".to_owned(), "fire".to_owned()]);
    assert!(parse_trigger_message(&vec![0xff, 0xfe]).is_err());
}

#[test]
fn end_to_end_scenario() {
    // register a u32 variable "Count" = 5: the announcement frame carries
    // an unsigned schema bounded by the type and the value u5
    let mut count: u32 = 5;
    let repr = count.repr_default(&ActionTarget::This).serialize();
    let value = count.get_self(&ActionTarget::This).serialize();
    let announce = frame_new(&"Count".to_owned(), &repr, &value);
    assert_eq!(
        announce,
        b"nCount;37-livemod:uint{min=u0;max=u4294967295;};2-u5\n".to_vec()
    );

    // the viewer sets Count to 9: the host value changes and no schema
    // message follows
    let req = parse_set_message(&b"Count".to_vec(), &b"u9".to_vec()).unwrap();
    let target = ActionTarget::from_name_and_fields(&req.path);
    let schema_changed = count.accept(&target, req.value);
    assert!(!schema_changed);
    assert_eq!(count, 9);

    // register Vec<u32> "Items" = [1, 2] and set its length to 3: the
    // third element is the default and a schema message is due
    let mut items: Vec<u32> = vec![1, 2];
    let req2 = parse_set_message(&b"Items.len".to_vec(), &b"u3".to_vec()).unwrap();
    let target2 = ActionTarget::from_name_and_fields(&req2.path);
    let schema_changed2 = items.accept(&target2, req2.value);
    assert!(schema_changed2);
    assert_eq!(items, vec![1, 2, 0]);

    // destroying the "Count" wrapper emits its removal frame
    let removal = frame_remove(&"Count".to_owned());
    assert_eq!(removal, b"rCount\n".to_vec());
}
