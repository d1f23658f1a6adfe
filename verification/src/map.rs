//! The map binding: an insertion-ordered collection of key/value pairs,
//! addressed on the wire by each key's serialized text.
//!
//! Keys must be buildable from a wire value (`LiveModCtor`); values must
//! be tracked and default-constructible.  The schema carries the key
//! type's static schema for an insert editor and `keys` / `values` trees
//! keyed by each live key's serialized text; edits address a value as
//! `values.<key-text>.<field...>`, and the control messages `rm` and
//! `insert` delete or add entries.  Renaming a key in place is not
//! supported: it takes a remove and a reinsert.

use vstd::prelude::*;
use vstd::utf8::decode_utf8;

use crate::codec::lemma_ser_param_utf8;
use crate::codec::ser_param;
use crate::data::Namespaced;
use crate::data::NodeView;
use crate::data::ParamView;
use crate::data::Parameter;
use crate::data::Repr;
use crate::data::Value;
use crate::reflect::lookup;
use crate::reflect::LiveMod;
use crate::reflect::LiveModCtor;
use crate::reflect::LiveModDefault;
use crate::repr::fields_node;
use crate::repr::lm_name;
use crate::target::ActionTarget;

verus! {

/// The serialized text of a value tree.
pub open spec fn ser_text(m: ParamView) -> Seq<char> {
    decode_utf8(ser_param(m))
}

/// An insertion-ordered key/value collection tracked through the wire
/// protocol.
///
/// A hash map is no verifiable ground for this binding: its iteration
/// order is unspecified while the protocol needs a deterministic entry
/// order, and the standard library's hashing is opaque to contracts over
/// keys built through this crate's reflection traits.  The collection is
/// therefore a verified entry vector in insertion order, with key
/// identity taken from the serialized key text.
pub struct TrackedMap<K, V> {
    pub entries: Vec<(K, V)>,
}

/// The first index whose key serializes to `t`, or `-1`.
pub open spec fn key_find<K: LiveMod, V>(s: Seq<(K, V)>, t: Seq<char>) -> int
    decreases s.len(),
{
    if s.len() == 0 {
        -1
    } else if ser_text(s[0].0.model()) == t {
        0
    } else {
        let rest = key_find(s.drop_first(), t);
        if rest == -1 {
            -1
        } else {
            rest + 1
        }
    }
}

/// `key_find` finds the first matching index, if any.
pub proof fn lemma_key_find<K: LiveMod, V>(s: Seq<(K, V)>, t: Seq<char>)
    ensures
        -1 <= key_find(s, t) < s.len(),
        key_find(s, t) >= 0 ==> ser_text(s[key_find(s, t)].0.model()) == t,
        key_find(s, t) >= 0 ==> forall|i: int|
            0 <= i < key_find(s, t) ==> ser_text(s[i].0.model()) != t,
        key_find(s, t) == -1 ==> forall|i: int|
            0 <= i < s.len() ==> ser_text(s[i].0.model()) != t,
    decreases s.len(),
{
    if s.len() > 0 && ser_text(s[0].0.model()) != t {
        lemma_key_find(s.drop_first(), t);
        assert forall|i: int| 1 <= i < s.len() implies s[i] == s.drop_first()[i - 1] by {}
    }
}

/// If the key texts before `i` all differ from `t` and entry `i`
/// matches, then `i` is the first match.
pub proof fn lemma_key_find_first<K: LiveMod, V>(s: Seq<(K, V)>, t: Seq<char>, i: int)
    requires
        0 <= i < s.len(),
        ser_text(s[i].0.model()) == t,
        forall|j: int| 0 <= j < i ==> ser_text(s[j].0.model()) != t,
    ensures
        key_find(s, t) == i,
    decreases s.len(),
{
    if i > 0 {
        assert forall|j: int| 0 <= j < i - 1 implies ser_text(s.drop_first()[j].0.model())
            != t by {
            assert(s.drop_first()[j] == s[j + 1]);
        }
        assert(s.drop_first()[i - 1] == s[i]);
        lemma_key_find_first(s.drop_first(), t, i - 1);
    }
}

/// The `keys` tree entries: each key's text mapped to its value tree.
pub open spec fn map_keys_entries<K: LiveMod, V>(s: Seq<(K, V)>) -> Seq<(Seq<char>, ParamView)> {
    Seq::new(s.len(), |i: int| (ser_text(s[i].0.model()), s[i].0.model()))
}

/// The `values` tree entries: each key's text mapped to the value's tree.
pub open spec fn map_values_entries<K: LiveMod, V: LiveMod>(s: Seq<(K, V)>) -> Seq<
    (Seq<char>, ParamView),
> {
    Seq::new(s.len(), |i: int| (ser_text(s[i].0.model()), s[i].1.model()))
}

/// The map's value tree.
pub open spec fn map_value_node<K: LiveMod, V: LiveMod>(s: Seq<(K, V)>) -> NodeView {
    NodeView {
        name: lm_name("map"@),
        fields: seq![
            ("keys"@, ParamView::Namespaced(fields_node(map_keys_entries(s)))),
            ("values"@, ParamView::Namespaced(fields_node(map_values_entries(s)))),
        ],
    }
}

/// The map's schema tree.
pub open spec fn map_repr_node<K: LiveModCtor, V: LiveMod>(s: Seq<(K, V)>) -> NodeView {
    NodeView {
        name: lm_name("map"@),
        fields: seq![
            ("key"@, ParamView::Namespaced(K::static_repr())),
            (
                "keys"@,
                ParamView::Namespaced(
                    fields_node(
                        Seq::new(
                            s.len(),
                            |i: int| (
                                ser_text(s[i].0.model()),
                                ParamView::Namespaced(s[i].0.repr_model()),
                            ),
                        ),
                    ),
                ),
            ),
            (
                "values"@,
                ParamView::Namespaced(
                    fields_node(
                        Seq::new(
                            s.len(),
                            |i: int| (
                                ser_text(s[i].0.model()),
                                ParamView::Namespaced(s[i].1.repr_model()),
                            ),
                        ),
                    ),
                ),
            ),
        ],
    }
}

/// Whether a map control message is acceptable.
pub open spec fn map_control_ok<K: LiveModCtor, V>(value: ParamView) -> bool {
    &&& value matches ParamView::Namespaced(n)
    &&& n.name.len() >= 3
    &&& (if n.name[2] == "rm"@ || n.name[2] == "insert"@ {
        lookup(n.fields, "key"@) matches Some(kp) && K::ctor_ok(kp)
    } else {
        true
    })
}

/// The entry models after a map control message: `(key text, key model,
/// value model)` triples.
pub open spec fn map_control_result<K: LiveModCtor + LiveMod, V: LiveMod + LiveModDefault>(
    s: Seq<(K, V)>,
    n: NodeView,
) -> Seq<(ParamView, ParamView)> {
    let ms = Seq::new(s.len(), |i: int| (s[i].0.model(), s[i].1.model()));
    if n.name[2] == "rm"@ {
        let t = ser_text(K::ctor_model(lookup(n.fields, "key"@)->Some_0));
        let ix = key_find(s, t);
        if ix >= 0 {
            ms.remove(ix)
        } else {
            ms
        }
    } else if n.name[2] == "insert"@ {
        let km = K::ctor_model(lookup(n.fields, "key"@)->Some_0);
        let t = ser_text(km);
        let ix = key_find(s, t);
        if ix >= 0 {
            ms.update(ix, (ms[ix].0, V::default_model()))
        } else {
            ms.push((km, V::default_model()))
        }
    } else {
        ms
    }
}


/// Loop view of `get_self`: the first `i` entries are built.
pub open spec fn gs_built<K: LiveMod, V: LiveMod>(
    ks: Seq<(String, Parameter<Value>)>,
    vs: Seq<(String, Parameter<Value>)>,
    s: Seq<(K, V)>,
    i: int,
) -> bool {
    &&& ks.len() == i
    &&& vs.len() == i
    &&& (forall|j: int|
        0 <= j < i ==> #[trigger] ks[j].0@ == ser_text(s[j].0.model()) && ks[j].1@
            == s[j].0.model())
    &&& (forall|j: int|
        0 <= j < i ==> #[trigger] vs[j].0@ == ser_text(s[j].0.model()) && vs[j].1@
            == s[j].1.model())
}

impl<K: LiveModCtor, V: LiveMod + LiveModDefault> TrackedMap<K, V> {
    /// The key/value models in insertion order.
    pub open spec fn models(&self) -> Seq<(ParamView, ParamView)> {
        Seq::new(self.entries@.len(), |i: int| (self.entries@[i].0.model(), self.entries@[i].1.model()))
    }

    /// The raw entries, for contracts.
    pub open spec fn entries_view(&self) -> Seq<(K, V)> {
        self.entries@
    }

    /// An empty map.
    pub fn new() -> (r: TrackedMap<K, V>)
        ensures
            r.entries_view() == Seq::<(K, V)>::empty(),
            r.inv(),
    {
        let r = TrackedMap { entries: Vec::new() };
        proof {
            assert(r.entries_view() =~= Seq::<(K, V)>::empty());
        }
        r
    }

    pub fn len(&self) -> (n: usize)
        ensures
            n == self.entries_view().len(),
    {
        self.entries.len()
    }

    /// Add an entry at the end.  The caller keeps key texts distinct by
    /// only pushing keys that are not yet present.
    pub fn push_entry(&mut self, k: K, v: V)
        requires
            old(self).inv(),
            k.inv(),
            v.inv(),
            key_find(old(self).entries_view(), ser_text(k.model())) == -1,
        ensures
            final(self).entries_view() == old(self).entries_view().push((k, v)),
            final(self).inv(),
    {
        proof {
            lemma_key_find(self.entries@, ser_text(k.model()));
        }
        self.entries.push((k, v));
        proof {
            let s = self.entries@;
            assert forall|i: int, j: int| 0 <= i < j < s.len() implies ser_text(
                #[trigger] s[i].0.model(),
            ) != ser_text(#[trigger] s[j].0.model()) by {
                if j < s.len() - 1 {
                    assert(old(self).entries_view()[i] == s[i]);
                    assert(old(self).entries_view()[j] == s[j]);
                } else {
                    assert(old(self).entries_view()[i] == s[i]);
                }
            }
        }
    }
}

impl<K: LiveModCtor, V: LiveMod + LiveModDefault> LiveMod for TrackedMap<K, V> {
    open spec fn inv(&self) -> bool {
        &&& (forall|i: int|
            0 <= i < self.entries@.len() ==> (#[trigger] self.entries@[i].0).inv()
                && self.entries@[i].1.inv())
        &&& (forall|i: int, j: int|
            0 <= i < j < self.entries@.len() ==> ser_text(#[trigger] self.entries@[i].0.model())
                != ser_text(#[trigger] self.entries@[j].0.model()))
    }

    open spec fn model(&self) -> ParamView {
        ParamView::Namespaced(map_value_node(self.entries@))
    }

    open spec fn repr_model(&self) -> NodeView {
        map_repr_node(self.entries@)
    }

    open spec fn valid_target(&self, path: Seq<Seq<char>>) -> bool {
        ||| path.len() == 0
        ||| {
            &&& path.len() >= 2
            &&& (path[0] == "keys"@ || path[0] == "values"@)
            &&& key_find(self.entries@, path[1]) >= 0
            &&& (path[0] == "keys"@ ==> self.entries@[key_find(self.entries@, path[1])].0.valid_target(
                path.skip(2),
            ))
            &&& (path[0] != "keys"@ ==> self.entries@[key_find(self.entries@, path[1])].1.valid_target(
                path.skip(2),
            ))
        }
    }

    open spec fn valid_accept(&self, path: Seq<Seq<char>>, value: ParamView) -> bool {
        if path.len() == 0 {
            map_control_ok::<K, V>(value)
        } else {
            &&& path.len() >= 2
            &&& path[0] == "values"@
            &&& key_find(self.entries@, path[1]) >= 0
            &&& self.entries@[key_find(self.entries@, path[1])].1.valid_accept(
                path.skip(2),
                value,
            )
        }
    }

    open spec fn get_model(&self, path: Seq<Seq<char>>) -> ParamView {
        if path.len() == 0 {
            self.model()
        } else if path.len() >= 1 && path[0] == "keys"@ {
            self.entries@[key_find(self.entries@, path[1])].0.get_model(path.skip(2))
        } else {
            self.entries@[key_find(self.entries@, path[1])].1.get_model(path.skip(2))
        }
    }

    open spec fn repr_at(&self, path: Seq<Seq<char>>) -> NodeView {
        if path.len() == 0 {
            self.repr_model()
        } else if path.len() >= 1 && path[0] == "keys"@ {
            self.entries@[key_find(self.entries@, path[1])].0.repr_at(path.skip(2))
        } else {
            self.entries@[key_find(self.entries@, path[1])].1.repr_at(path.skip(2))
        }
    }

    open spec fn accept_model(&self, path: Seq<Seq<char>>, value: ParamView) -> ParamView {
        if path.len() == 0 {
            let ms = map_control_result::<K, V>(self.entries@, value->Namespaced_0);
            ParamView::Namespaced(
                NodeView {
                    name: lm_name("map"@),
                    fields: seq![
                        (
                            "keys"@,
                            ParamView::Namespaced(
                                fields_node(
                                    Seq::new(ms.len(), |i: int| (ser_text(ms[i].0), ms[i].0)),
                                ),
                            ),
                        ),
                        (
                            "values"@,
                            ParamView::Namespaced(
                                fields_node(
                                    Seq::new(ms.len(), |i: int| (ser_text(ms[i].0), ms[i].1)),
                                ),
                            ),
                        ),
                    ],
                },
            )
        } else {
            let ix = key_find(self.entries@, path[1]);
            let nv = self.entries@[ix].1.accept_model(path.skip(2), value);
            ParamView::Namespaced(
                NodeView {
                    name: lm_name("map"@),
                    fields: seq![
                        (
                            "keys"@,
                            ParamView::Namespaced(fields_node(map_keys_entries(self.entries@))),
                        ),
                        (
                            "values"@,
                            ParamView::Namespaced(
                                fields_node(
                                    map_values_entries(self.entries@).update(
                                        ix,
                                        (path[1], nv),
                                    ),
                                ),
                            ),
                        ),
                    ],
                },
            )
        }
    }

    open spec fn accept_report(&self, path: Seq<Seq<char>>, value: ParamView) -> bool {
        if path.len() == 0 {
            true
        } else {
            self.entries@[key_find(self.entries@, path[1])].1.accept_report(path.skip(2), value)
        }
    }

    proof fn lemma_this_valid(&self) {
    }

    fn repr_default(&self, target: &ActionTarget) -> (r: Namespaced<Repr>) {
        match target.strip_one_field() {
            None => {
                let n: usize = self.entries.len();
                let mut keys_entries: Vec<(String, Parameter<Repr>)> = Vec::new();
                let mut values_entries: Vec<(String, Parameter<Repr>)> = Vec::new();
                let mut i: usize = 0;
                while i < n
                    invariant
                        n == self.entries@.len(),
                        i <= n,
                        self.inv(),
                        keys_entries@.len() == i,
                        values_entries@.len() == i,
                        forall|j: int|
                            0 <= j < i ==> #[trigger] keys_entries@[j].0@ == ser_text(
                                self.entries@[j].0.model(),
                            ) && keys_entries@[j].1@ == ParamView::Namespaced(
                                self.entries@[j].0.repr_model(),
                            ),
                        forall|j: int|
                            0 <= j < i ==> #[trigger] values_entries@[j].0@ == ser_text(
                                self.entries@[j].0.model(),
                            ) && values_entries@[j].1@ == ParamView::Namespaced(
                                self.entries@[j].1.repr_model(),
                            ),
                    decreases n - i,
                {
                    proof {
                        self.entries@[i as int].0.lemma_this_valid();
                        self.entries@[i as int].1.lemma_this_valid();
                    }
                    let text = ser_key_text(&self.entries[i].0);
                    let text2 = ser_key_text(&self.entries[i].0);
                    let this = ActionTarget::This;
                    let krepr = self.entries[i].0.repr_default(&this);
                    let this2 = ActionTarget::This;
                    let vrepr = self.entries[i].1.repr_default(&this2);
                    proof {
                        assert(text@ == ser_text(self.entries@[i as int].0.model()));
                        assert(text2@ == ser_text(self.entries@[i as int].0.model()));
                        assert(krepr@ == self.entries@[i as int].0.repr_model());
                        assert(vrepr@ == self.entries@[i as int].1.repr_model());
                    }
                    keys_entries.push((text, Parameter::Namespaced(krepr)));
                    values_entries.push((text2, Parameter::Namespaced(vrepr)));
                    proof {
                        assert(keys_entries@[i as int].0@ == ser_text(
                            self.entries@[i as int].0.model(),
                        ));
                        assert(values_entries@[i as int].0@ == ser_text(
                            self.entries@[i as int].0.model(),
                        ));
                        assert(keys_entries@[i as int].1@ == ParamView::Namespaced(
                            self.entries@[i as int].0.repr_model(),
                        ));
                        assert(values_entries@[i as int].1@ == ParamView::Namespaced(
                            self.entries@[i as int].1.repr_model(),
                        ));
                    }
                    i += 1;
                }
                let keys_tree = Namespaced::new(
                    crate::repr::lm_name_vec("fields"),
                    crate::repr::fields_of_vec(keys_entries),
                );
                let values_tree = Namespaced::new(
                    crate::repr::lm_name_vec("fields"),
                    crate::repr::fields_of_vec(values_entries),
                );
                let mut outer: Vec<(String, Parameter<Repr>)> = Vec::new();
                outer.push(("key".to_owned(), Parameter::Namespaced(K::repr_static())));
                outer.push(("keys".to_owned(), Parameter::Namespaced(keys_tree)));
                outer.push(("values".to_owned(), Parameter::Namespaced(values_tree)));
                let r = Namespaced::new(
                    crate::repr::lm_name_vec("map"),
                    crate::repr::fields_of_vec(outer),
                );
                proof {
                    crate::data::lemma_fview_len(outer@);
                    crate::data::lemma_fview_len(keys_entries@);
                    crate::data::lemma_fview_len(values_entries@);
                    assert(r@.fields[1].1->Namespaced_0.fields =~= map_repr_node(
                        self.entries@,
                    ).fields[1].1->Namespaced_0.fields);
                    assert(r@.fields[2].1->Namespaced_0.fields =~= map_repr_node(
                        self.entries@,
                    ).fields[2].1->Namespaced_0.fields);
                    assert(r@.fields =~~= map_repr_node(self.entries@).fields);
                    assert(r@ =~~= map_repr_node(self.entries@));
                }
                r
            },
            Some((field, rest)) => {
                proof {
                    assert(target.path().len() >= 2);
                    assert(rest.path().len() >= 1);
                }
                let (text, rest2) = match rest.strip_one_field() {
                    Some(p) => p,
                    None => {
                        proof {
                            assert(false);
                        }
                        (String::new(), ActionTarget::This)
                    },
                };
                let ix = match find_key_entry(&self.entries, &text) {
                    Some(ix) => ix,
                    None => {
                        proof {
                            assert(false);
                        }
                        0
                    },
                };
                let keys_key: String = "keys".to_owned();
                proof {
                    reveal_strlit("keys");
                    reveal_strlit("values");
                    assert(target.path()[0] == field@);
                    assert(target.path()[1] == text@);
                    assert(rest2.path() =~= target.path().skip(2));
                }
                if crate::data::string_eq(&field, &keys_key) {
                    proof {
                        broadcast use vstd::string::group_string_axioms;

                        reveal_strlit("keys");
                        reveal_strlit("values");
                        let pth = target.path();
                        assert(self.valid_target(pth));
                        assert(pth.len() >= 2);
                        assert(pth[0] == field@ && field@ == "keys"@);
                        assert(key_find(self.entries@, pth[1]) == ix as int);
                        assert((self.entries@[ix as int].0).inv());
                        assert(self.entries@[ix as int].0.valid_target(pth.skip(2)));
                    }
                    self.entries[ix].0.repr_default(&rest2)
                } else {
                    proof {
                        broadcast use vstd::string::group_string_axioms;

                        reveal_strlit("keys");
                        reveal_strlit("values");
                        let pth = target.path();
                        assert(self.valid_target(pth));
                        assert(pth.len() >= 2);
                        assert(pth[0] == field@ && field@ != "keys"@);
                        assert(key_find(self.entries@, pth[1]) == ix as int);
                        assert((self.entries@[ix as int].0).inv());
                        assert(self.entries@[ix as int].1.valid_target(pth.skip(2)));
                    }
                    self.entries[ix].1.repr_default(&rest2)
                }
            },
        }
    }

    fn get_self(&self, target: &ActionTarget) -> (r: Parameter<Value>) {
        match target.strip_one_field() {
            None => {
                let n: usize = self.entries.len();
                let mut keys_entries: Vec<(String, Parameter<Value>)> = Vec::new();
                let mut values_entries: Vec<(String, Parameter<Value>)> = Vec::new();
                let mut i: usize = 0;
                while i < n
                    invariant
                        n == self.entries@.len(),
                        i <= n,
                        self.inv(),
                        gs_built(keys_entries@, values_entries@, self.entries@, i as int),
                    decreases n - i,
                {
                    proof {
                        self.entries@[i as int].0.lemma_this_valid();
                        self.entries@[i as int].1.lemma_this_valid();
                    }
                    let text = ser_key_text(&self.entries[i].0);
                    let text2 = ser_key_text(&self.entries[i].0);
                    let this = ActionTarget::This;
                    let kval = self.entries[i].0.get_self(&this);
                    let this2 = ActionTarget::This;
                    let vval = self.entries[i].1.get_self(&this2);
                    proof {
                        assert(text@ == ser_text(self.entries@[i as int].0.model()));
                        assert(kval@ == self.entries@[i as int].0.model());
                        assert(vval@ == self.entries@[i as int].1.model());
                    }
                    proof {
                        assert(text2@ == ser_text(self.entries@[i as int].0.model()));
                    }
                    keys_entries.push((text, kval));
                    values_entries.push((text2, vval));
                    proof {
                        assert(keys_entries@[i as int].0@ == ser_text(
                            self.entries@[i as int].0.model(),
                        ));
                        assert(values_entries@[i as int].0@ == ser_text(
                            self.entries@[i as int].0.model(),
                        ));
                        assert(keys_entries@[i as int].1@ == self.entries@[i as int].0.model());
                        assert(values_entries@[i as int].1@ == self.entries@[i as int].1.model());
                        assert forall|j: int|
                            0 <= j < i + 1 implies #[trigger] keys_entries@[j].0@ == ser_text(
                            self.entries@[j].0.model(),
                        ) && keys_entries@[j].1@ == self.entries@[j].0.model() by {
                            assert(keys_entries@[j].0@ == keys_entries@[j].0@);
                        }
                        assert forall|j: int|
                            0 <= j < i + 1 implies #[trigger] values_entries@[j].0@ == ser_text(
                            self.entries@[j].0.model(),
                        ) && values_entries@[j].1@ == self.entries@[j].1.model() by {
                            assert(values_entries@[j].0@ == values_entries@[j].0@);
                        }
                        assert(gs_built(
                            keys_entries@,
                            values_entries@,
                            self.entries@,
                            i + 1,
                        ));
                    }
                    i += 1;
                }
                let keys_tree = Namespaced::new(
                    crate::repr::lm_name_vec("fields"),
                    crate::repr::fields_of_vec(keys_entries),
                );
                let values_tree = Namespaced::new(
                    crate::repr::lm_name_vec("fields"),
                    crate::repr::fields_of_vec(values_entries),
                );
                let mut outer: Vec<(String, Parameter<Value>)> = Vec::new();
                outer.push(("keys".to_owned(), Parameter::Namespaced(keys_tree)));
                outer.push(("values".to_owned(), Parameter::Namespaced(values_tree)));
                let r = Namespaced::new(
                    crate::repr::lm_name_vec("map"),
                    crate::repr::fields_of_vec(outer),
                );
                proof {
                    crate::data::lemma_fview_len(outer@);
                    crate::data::lemma_fview_len(keys_entries@);
                    crate::data::lemma_fview_len(values_entries@);
                    assert(r@.fields[0].1->Namespaced_0.fields =~= map_keys_entries(
                        self.entries@,
                    ));
                    assert(r@.fields[1].1->Namespaced_0.fields =~= map_values_entries(
                        self.entries@,
                    ));
                    assert(r@.fields =~~= map_value_node(self.entries@).fields);
                    assert(r@ =~~= map_value_node(self.entries@));
                }
                Parameter::Namespaced(r)
            },
            Some((field, rest)) => {
                proof {
                    assert(target.path().len() >= 2);
                    assert(rest.path().len() >= 1);
                }
                let (text, rest2) = match rest.strip_one_field() {
                    Some(p) => p,
                    None => {
                        proof {
                            assert(false);
                        }
                        (String::new(), ActionTarget::This)
                    },
                };
                let ix = match find_key_entry(&self.entries, &text) {
                    Some(ix) => ix,
                    None => {
                        proof {
                            assert(false);
                        }
                        0
                    },
                };
                let keys_key: String = "keys".to_owned();
                proof {
                    reveal_strlit("keys");
                    reveal_strlit("values");
                    assert(target.path()[0] == field@);
                    assert(target.path()[1] == text@);
                    assert(rest2.path() =~= target.path().skip(2));
                }
                if crate::data::string_eq(&field, &keys_key) {
                    proof {
                        broadcast use vstd::string::group_string_axioms;

                        reveal_strlit("keys");
                        reveal_strlit("values");
                        let pth = target.path();
                        assert(self.valid_target(pth));
                        assert(pth.len() >= 2);
                        assert(pth[0] == field@ && field@ == "keys"@);
                        assert(key_find(self.entries@, pth[1]) == ix as int);
                        assert((self.entries@[ix as int].0).inv());
                        assert(self.entries@[ix as int].0.valid_target(pth.skip(2)));
                    }
                    self.entries[ix].0.get_self(&rest2)
                } else {
                    proof {
                        broadcast use vstd::string::group_string_axioms;

                        reveal_strlit("keys");
                        reveal_strlit("values");
                        let pth = target.path();
                        assert(self.valid_target(pth));
                        assert(pth.len() >= 2);
                        assert(pth[0] == field@ && field@ != "keys"@);
                        assert(key_find(self.entries@, pth[1]) == ix as int);
                        assert((self.entries@[ix as int].0).inv());
                        assert(self.entries@[ix as int].1.valid_target(pth.skip(2)));
                    }
                    self.entries[ix].1.get_self(&rest2)
                }
            },
        }
    }

    #[verifier::rlimit(100)]
    fn accept(&mut self, target: &ActionTarget, value: Parameter<Value>) -> (r: bool) {
        match target.strip_one_field() {
            None => {
                let n = match value {
                    Parameter::Namespaced(n) => n,
                    _ => {
                        proof {
                            assert(false);
                        }
                        return true;
                    },
                };
                let ghost nv = n@;
                let op = &n.name[2];
                proof {
                    assert(n.name.deep_view()[2] == n.name@[2]@);
                }
                let rm_key: String = "rm".to_owned();
                let insert_key: String = "insert".to_owned();
                if crate::data::string_eq(op, &rm_key) {
                    let key_name: String = "key".to_owned();
                    let kp = match n.parameters.get(&key_name) {
                        Some(p) => p.clone(),
                        None => {
                            proof {
                                assert(false);
                            }
                            Parameter::Bool(false)
                        },
                    };
                    let k = match K::from_value(kp) {
                        Some(k) => k,
                        None => {
                            proof {
                                assert(false);
                            }
                            return true;
                        },
                    };
                    let text = ser_key_text(&k);
                    match find_key_entry(&self.entries, &text) {
                        Some(ix) => {
                            proof {
                                lemma_key_find(self.entries@, text@);
                                assert(key_find(self.entries@, text@) >= 0);
                                assert(ix < self.entries@.len());
                            }
                            self.entries.remove(ix);
                            proof {
                                lemma_map_after_remove(old(self).entries_view(), self.entries@, ix as int, nv);
                                assert forall|i2: int|
                                    0 <= i2 < self.entries@.len() implies (
                                #[trigger] self.entries@[i2].0).inv()
                                    && self.entries@[i2].1.inv() by {
                                    if i2 < ix {
                                        assert(self.entries@[i2] == old(self).entries_view()[i2]);
                                    } else {
                                        assert(self.entries@[i2] == old(self).entries_view()[i2
                                            + 1]);
                                    }
                                }
                                assert forall|i2: int, j2: int|
                                    0 <= i2 < j2 < self.entries@.len() implies ser_text(
                                    #[trigger] self.entries@[i2].0.model(),
                                ) != ser_text(#[trigger] self.entries@[j2].0.model()) by {
                                    let a = if i2 < ix { i2 } else { i2 + 1 };
                                    let b = if j2 < ix { j2 } else { j2 + 1 };
                                    assert(self.entries@[i2] == old(self).entries_view()[a]);
                                    assert(self.entries@[j2] == old(self).entries_view()[b]);
                                }
                            }
                        },
                        None => {
                            proof {
                                lemma_key_find(self.entries@, text@);
                                assert(key_find(self.entries@, text@) == -1);
                            }
                        },
                    }
                    proof {
                        let ms = map_control_result::<K, V>(old(self).entries_view(), nv);
                        assert(text@ == ser_text(
                            K::ctor_model(lookup(nv.fields, "key"@)->Some_0),
                        ));
                        assert(map_keys_entries(self.entries@) =~= Seq::new(
                            ms.len(),
                            |i2: int| (ser_text(ms[i2].0), ms[i2].0),
                        ));
                        assert(map_values_entries(self.entries@) =~= Seq::new(
                            ms.len(),
                            |i2: int| (ser_text(ms[i2].0), ms[i2].1),
                        ));
                        assert(self.model() =~~= old(self).accept_model(target.path(), value@));
                    }
                    true
                } else if crate::data::string_eq(op, &insert_key) {
                    let key_name: String = "key".to_owned();
                    let kp = match n.parameters.get(&key_name) {
                        Some(p) => p.clone(),
                        None => {
                            proof {
                                assert(false);
                            }
                            Parameter::Bool(false)
                        },
                    };
                    let k = match K::from_value(kp) {
                        Some(k) => k,
                        None => {
                            proof {
                                assert(false);
                            }
                            return true;
                        },
                    };
                    let text = ser_key_text(&k);
                    match find_key_entry(&self.entries, &text) {
                        Some(ix) => {
                            proof {
                                lemma_key_find(self.entries@, text@);
                                assert(key_find(self.entries@, text@) >= 0);
                                assert(ix < self.entries@.len());
                            }
                            let entry = self.entries.remove(ix);
                            self.entries.insert(ix, (entry.0, V::make_default()));
                            proof {
                                assert(self.entries@ =~= old(self).entries_view().update(
                                    ix as int,
                                    self.entries@[ix as int],
                                ));
                                lemma_map_after_replace(old(self).entries_view(), self.entries@, ix as int, nv);
                                assert forall|i2: int|
                                    0 <= i2 < self.entries@.len() implies (
                                #[trigger] self.entries@[i2].0).inv()
                                    && self.entries@[i2].1.inv() by {
                                    if i2 != ix {
                                        assert(self.entries@[i2] == old(self).entries_view()[i2]);
                                    }
                                }
                                assert forall|i2: int, j2: int|
                                    0 <= i2 < j2 < self.entries@.len() implies ser_text(
                                    #[trigger] self.entries@[i2].0.model(),
                                ) != ser_text(#[trigger] self.entries@[j2].0.model()) by {
                                    assert(self.entries@[i2].0 == old(self).entries_view()[i2].0);
                                    assert(self.entries@[j2].0 == old(self).entries_view()[j2].0);
                                }
                            }
                        },
                        None => {
                            proof {
                                lemma_key_find(self.entries@, text@);
                                assert(key_find(self.entries@, text@) == -1);
                            }
                            self.entries.push((k, V::make_default()));
                            proof {
                                lemma_map_after_push(old(self).entries_view(), self.entries@, nv);
                                assert forall|i2: int|
                                    0 <= i2 < self.entries@.len() implies (
                                #[trigger] self.entries@[i2].0).inv()
                                    && self.entries@[i2].1.inv() by {
                                    if i2 < self.entries@.len() - 1 {
                                        assert(self.entries@[i2] == old(self).entries_view()[i2]);
                                    }
                                }
                                assert forall|i2: int, j2: int|
                                    0 <= i2 < j2 < self.entries@.len() implies ser_text(
                                    #[trigger] self.entries@[i2].0.model(),
                                ) != ser_text(#[trigger] self.entries@[j2].0.model()) by {
                                    assert(self.entries@[i2] == old(self).entries_view()[i2]);
                                    if j2 < self.entries@.len() - 1 {
                                        assert(self.entries@[j2] == old(self).entries_view()[j2]);
                                    } else {
                                        assert(ser_text(self.entries@[j2].0.model()) == text@);
                                    }
                                }
                            }
                        },
                    }
                    proof {
                        let ms = map_control_result::<K, V>(old(self).entries_view(), nv);
                        assert(text@ == ser_text(
                            K::ctor_model(lookup(nv.fields, "key"@)->Some_0),
                        ));
                        assert(map_keys_entries(self.entries@) =~= Seq::new(
                            ms.len(),
                            |i2: int| (ser_text(ms[i2].0), ms[i2].0),
                        ));
                        assert(map_values_entries(self.entries@) =~= Seq::new(
                            ms.len(),
                            |i2: int| (ser_text(ms[i2].0), ms[i2].1),
                        ));
                        assert(self.model() =~~= old(self).accept_model(target.path(), value@));
                    }
                    true
                } else {
                    proof {
                        let ms = map_control_result::<K, V>(old(self).entries_view(), nv);
                        assert(map_keys_entries(self.entries@) =~= Seq::new(
                            ms.len(),
                            |i2: int| (ser_text(ms[i2].0), ms[i2].0),
                        ));
                        assert(map_values_entries(self.entries@) =~= Seq::new(
                            ms.len(),
                            |i2: int| (ser_text(ms[i2].0), ms[i2].1),
                        ));
                        assert(self.model() =~~= old(self).accept_model(target.path(), value@));
                    }
                    true
                }
            },
            Some((field, rest)) => {
                proof {
                    assert(target.path().len() >= 2);
                    assert(rest.path().len() >= 1);
                }
                let (text, rest2) = match rest.strip_one_field() {
                    Some(p) => p,
                    None => {
                        proof {
                            assert(false);
                        }
                        (String::new(), ActionTarget::This)
                    },
                };
                let ix = match find_key_entry(&self.entries, &text) {
                    Some(ix) => ix,
                    None => {
                        proof {
                            assert(false);
                        }
                        0
                    },
                };
                proof {
                    assert(target.path()[0] == field@);
                    assert(target.path()[1] == text@);
                    assert(rest2.path() =~= target.path().skip(2));
                    lemma_key_find(self.entries@, text@);
                    assert(key_find(self.entries@, text@) >= 0);
                    assert(ix < self.entries@.len());
                    assert(ser_text(self.entries@[ix as int].0.model()) == text@);
                    assert((self.entries@[ix as int].0).inv());
                }
                let mut entry = self.entries.remove(ix);
                let r = entry.1.accept(&rest2, value);
                self.entries.insert(ix, entry);
                proof {
                    assert(self.entries@ =~= old(self).entries_view().update(
                        ix as int,
                        self.entries@[ix as int],
                    ));
                    lemma_map_after_value_edit(
                        old(self).entries_view(),
                        self.entries@,
                        ix as int,
                        target.path(),
                        value@,
                        r,
                    );
                    assert(self.model() =~~= old(self).accept_model(target.path(), value@));
                    if !r {
                        assert forall|i2: int|
                            0 <= i2 < self.entries@.len() implies (
                        #[trigger] self.entries@[i2].0).repr_model() == old(
                            self,
                        ).entries_view()[i2].0.repr_model() && self.entries@[i2].1.repr_model()
                            == old(self).entries_view()[i2].1.repr_model() && self.entries@[i2].0.model()
                            == old(self).entries_view()[i2].0.model() by {
                            if i2 != ix {
                                assert(self.entries@[i2] == old(self).entries_view()[i2]);
                            }
                        }
                        let a1 = map_repr_node::<K, V>(self.entries@);
                        let b1 = map_repr_node::<K, V>(old(self).entries_view());
                        assert(a1.fields[1].1->Namespaced_0.fields
                            =~= b1.fields[1].1->Namespaced_0.fields);
                        assert(a1.fields[2].1->Namespaced_0.fields
                            =~= b1.fields[2].1->Namespaced_0.fields);
                        assert(a1 =~~= b1);
                    }
                }
                r
            },
        }
    }

    fn check_target(&self, target: &ActionTarget) -> (r: bool) {
        match target.strip_one_field() {
            None => true,
            Some((field, rest)) => {
                let keys_key: String = "keys".to_owned();
                let values_key: String = "values".to_owned();
                let is_keys = crate::data::string_eq(&field, &keys_key);
                let is_values = crate::data::string_eq(&field, &values_key);
                proof {
                    assert(target.path()[0] == field@);
                    assert(target.path().len() >= 1);
                }
                if !is_keys && !is_values {
                    return false;
                }
                match rest.strip_one_field() {
                    None => {
                        proof {
                            assert(!(target is This));
                            assert(target matches ActionTarget::Field(_));
                            assert(rest is This);
                            assert(rest.path().len() == 0);
                            assert(rest.path() == target.path().skip(1));
                            assert(target.path().len() == 1);
                        }
                        false
                    },
                    Some((text, rest2)) => {
                        proof {
                            assert(target.path()[0] == field@);
                            assert(target.path()[1] == text@);
                            assert(rest2.path() =~= target.path().skip(2));
                        }
                        match find_key_entry(&self.entries, &text) {
                            None => {
                                proof {
                                    lemma_key_find(self.entries@, text@);
                                }
                                false
                            },
                            Some(ix) => {
                                proof {
                                    lemma_key_find(self.entries@, text@);
                                    assert(key_find(self.entries@, text@) >= 0);
                                    assert((self.entries@[ix as int].0).inv());
                                }
                                if is_keys {
                                    self.entries[ix].0.check_target(&rest2)
                                } else {
                                    self.entries[ix].1.check_target(&rest2)
                                }
                            },
                        }
                    },
                }
            },
        }
    }

    fn check_accept(&self, target: &ActionTarget, value: &Parameter<Value>) -> (r: bool) {
        match target.strip_one_field() {
            None => {
                match value {
                    Parameter::Namespaced(n) => {
                        if n.name.len() < 3 {
                            return false;
                        }
                        proof {
                            assert(n.name.deep_view()[2] == n.name@[2]@);
                        }
                        let rm_key: String = "rm".to_owned();
                        let insert_key: String = "insert".to_owned();
                        let op = &n.name[2];
                        if crate::data::string_eq(op, &rm_key) || crate::data::string_eq(
                            op,
                            &insert_key,
                        ) {
                            let key_name: String = "key".to_owned();
                            proof {
                                crate::data::lemma_find_key(n.parameters@, key_name@);
                            }
                            match n.parameters.get(&key_name) {
                                Some(p) => K::from_value(p.clone()).is_some(),
                                None => false,
                            }
                        } else {
                            true
                        }
                    },
                    _ => false,
                }
            },
            Some((field, rest)) => {
                let values_key: String = "values".to_owned();
                proof {
                    assert(target.path()[0] == field@);
                    assert(target.path().len() >= 1);
                }
                if !crate::data::string_eq(&field, &values_key) {
                    return false;
                }
                match rest.strip_one_field() {
                    None => {
                        proof {
                            assert(!(target is This));
                            assert(target matches ActionTarget::Field(_));
                            assert(rest is This);
                            assert(rest.path().len() == 0);
                            assert(rest.path() == target.path().skip(1));
                            assert(target.path().len() == 1);
                        }
                        false
                    },
                    Some((text, rest2)) => {
                        proof {
                            assert(target.path()[1] == text@);
                            assert(rest2.path() =~= target.path().skip(2));
                        }
                        match find_key_entry(&self.entries, &text) {
                            None => {
                                proof {
                                    lemma_key_find(self.entries@, text@);
                                }
                                false
                            },
                            Some(ix) => {
                                proof {
                                    lemma_key_find(self.entries@, text@);
                                    assert(key_find(self.entries@, text@) >= 0);
                                    assert((self.entries@[ix as int].0).inv());
                                }
                                self.entries[ix].1.check_accept(&rest2, value)
                            },
                        }
                    },
                }
            },
        }
    }
}

/// The serialized text of a tracked value: serialize its value tree and
/// decode the bytes.
fn ser_key_text<K: LiveMod>(k: &K) -> (r: String)
    requires
        k.inv(),
    ensures
        r@ == ser_text(k.model()),
{
    proof {
        k.lemma_this_valid();
    }
    let this = ActionTarget::This;
    let p = k.get_self(&this);
    let bytes = p.serialize();
    proof {
        lemma_ser_param_utf8(k.model());
    }
    match crate::codec::string_from_utf8(bytes) {
        Some(s) => s,
        None => {
            proof {
                assert(false);
            }
            String::new()
        },
    }
}

/// Find the entry whose key serializes to `text`.
fn find_key_entry<K: LiveModCtor, V>(entries: &Vec<(K, V)>, text: &String) -> (r: Option<usize>)
    requires
        forall|i: int| 0 <= i < entries@.len() ==> (#[trigger] entries@[i].0).inv(),
    ensures
        key_find(entries@, text@) >= 0 ==> (r matches Some(ix) && ix == key_find(entries@, text@)
            && ix < entries@.len()),
        key_find(entries@, text@) == -1 ==> r is None,
{
    proof {
        lemma_key_find(entries@, text@);
    }
    let n: usize = entries.len();
    let mut i: usize = 0;
    while i < n
        invariant
            n == entries@.len(),
            i <= n,
            forall|j: int| 0 <= j < entries@.len() ==> (#[trigger] entries@[j].0).inv(),
            forall|j: int| 0 <= j < i ==> ser_text(#[trigger] entries@[j].0.model()) != text@,
        decreases n - i,
    {
        let t = ser_key_text(&entries[i].0);
        if crate::data::string_eq(&t, text) {
            proof {
                lemma_key_find_first(entries@, text@, i as int);
            }
            return Some(i);
        }
        i += 1;
    }
    None
}

/// After removing entry `ix`, the map's trees drop that entry.
proof fn lemma_map_after_remove<K: LiveModCtor, V: LiveMod + LiveModDefault>(
    before: Seq<(K, V)>,
    after: Seq<(K, V)>,
    ix: int,
    nv: NodeView,
)
    requires
        0 <= ix < before.len(),
        after == before.remove(ix),
        nv.name.len() >= 3,
        nv.name[2] == "rm"@,
        lookup(nv.fields, "key"@) is Some,
        ix == key_find(before, ser_text(K::ctor_model(lookup(nv.fields, "key"@)->Some_0))),
    ensures
        map_keys_entries(after) =~= Seq::new(
            map_control_result::<K, V>(before, nv).len(),
            |i: int| (
                ser_text(map_control_result::<K, V>(before, nv)[i].0),
                map_control_result::<K, V>(before, nv)[i].0,
            ),
        ),
        map_values_entries(after) =~= Seq::new(
            map_control_result::<K, V>(before, nv).len(),
            |i: int| (
                ser_text(map_control_result::<K, V>(before, nv)[i].0),
                map_control_result::<K, V>(before, nv)[i].1,
            ),
        ),
{
    let ms = map_control_result::<K, V>(before, nv);
    let base = Seq::new(before.len(), |i: int| (before[i].0.model(), before[i].1.model()));
    assert(ms == base.remove(ix));
    assert forall|i: int| 0 <= i < ms.len() implies map_keys_entries(after)[i] == (
        ser_text(ms[i].0),
        ms[i].0,
    ) && map_values_entries(after)[i] == (ser_text(ms[i].0), ms[i].1) by {
        if i < ix {
            assert(after[i] == before[i]);
            assert(base.remove(ix)[i] == base[i]);
        } else {
            assert(after[i] == before[i + 1]);
            assert(base.remove(ix)[i] == base[i + 1]);
        }
    }
}

/// After replacing the value at `ix` with the default, the map's trees
/// keep the keys and swap in the default value model.
proof fn lemma_map_after_replace<K: LiveModCtor, V: LiveMod + LiveModDefault>(
    before: Seq<(K, V)>,
    after: Seq<(K, V)>,
    ix: int,
    nv: NodeView,
)
    requires
        0 <= ix < before.len(),
        after.len() == before.len(),
        forall|j: int| 0 <= j < before.len() && j != ix ==> #[trigger] after[j] == before[j],
        after[ix].0 == before[ix].0,
        after[ix].1.model() == V::default_model(),
        nv.name.len() >= 3,
        nv.name[2] == "insert"@,
        nv.name[2] != "rm"@,
        lookup(nv.fields, "key"@) is Some,
        ix == key_find(before, ser_text(K::ctor_model(lookup(nv.fields, "key"@)->Some_0))),
    ensures
        map_keys_entries(after) =~= Seq::new(
            map_control_result::<K, V>(before, nv).len(),
            |i: int| (
                ser_text(map_control_result::<K, V>(before, nv)[i].0),
                map_control_result::<K, V>(before, nv)[i].0,
            ),
        ),
        map_values_entries(after) =~= Seq::new(
            map_control_result::<K, V>(before, nv).len(),
            |i: int| (
                ser_text(map_control_result::<K, V>(before, nv)[i].0),
                map_control_result::<K, V>(before, nv)[i].1,
            ),
        ),
{
    let ms = map_control_result::<K, V>(before, nv);
    assert forall|i: int| 0 <= i < ms.len() implies map_keys_entries(after)[i] == (
        ser_text(ms[i].0),
        ms[i].0,
    ) && map_values_entries(after)[i] == (ser_text(ms[i].0), ms[i].1) by {
        if i != ix {
            assert(after[i] == before[i]);
        }
    }
}

/// After appending a fresh entry, the map's trees gain it at the end.
proof fn lemma_map_after_push<K: LiveModCtor, V: LiveMod + LiveModDefault>(
    before: Seq<(K, V)>,
    after: Seq<(K, V)>,
    nv: NodeView,
)
    requires
        after.len() == before.len() + 1,
        forall|j: int| 0 <= j < before.len() ==> #[trigger] after[j] == before[j],
        nv.name.len() >= 3,
        nv.name[2] == "insert"@,
        nv.name[2] != "rm"@,
        lookup(nv.fields, "key"@) is Some,
        key_find(before, ser_text(K::ctor_model(lookup(nv.fields, "key"@)->Some_0))) == -1,
        after[before.len() as int].0.model() == K::ctor_model(lookup(nv.fields, "key"@)->Some_0),
        after[before.len() as int].1.model() == V::default_model(),
    ensures
        map_keys_entries(after) =~= Seq::new(
            map_control_result::<K, V>(before, nv).len(),
            |i: int| (
                ser_text(map_control_result::<K, V>(before, nv)[i].0),
                map_control_result::<K, V>(before, nv)[i].0,
            ),
        ),
        map_values_entries(after) =~= Seq::new(
            map_control_result::<K, V>(before, nv).len(),
            |i: int| (
                ser_text(map_control_result::<K, V>(before, nv)[i].0),
                map_control_result::<K, V>(before, nv)[i].1,
            ),
        ),
{
    let ms = map_control_result::<K, V>(before, nv);
    assert forall|i: int| 0 <= i < ms.len() implies map_keys_entries(after)[i] == (
        ser_text(ms[i].0),
        ms[i].0,
    ) && map_values_entries(after)[i] == (ser_text(ms[i].0), ms[i].1) by {
        if i < before.len() {
            assert(after[i] == before[i]);
        }
    }
}

/// After editing the value at `ix`, the map meets the accept contract.
proof fn lemma_map_after_value_edit<K: LiveModCtor, V: LiveMod + LiveModDefault>(
    before: Seq<(K, V)>,
    after: Seq<(K, V)>,
    ix: int,
    path: Seq<Seq<char>>,
    value: ParamView,
    r: bool,
)
    requires
        path.len() >= 2,
        0 <= ix < before.len(),
        ix == key_find(before, path[1]),
        after.len() == before.len(),
        forall|j: int| 0 <= j < before.len() && j != ix ==> #[trigger] after[j] == before[j],
        after[ix].0 == before[ix].0,
        after[ix].1.inv(),
        after[ix].1.model() == before[ix].1.accept_model(path.skip(2), value),
        r == before[ix].1.accept_report(path.skip(2), value),
        !r ==> after[ix].1.repr_model() == before[ix].1.repr_model(),
        forall|i: int| 0 <= i < before.len() ==> (#[trigger] before[i].0).inv() && before[i].1.inv(),
        forall|i: int, j: int|
            0 <= i < j < before.len() ==> ser_text(#[trigger] before[i].0.model()) != ser_text(
                #[trigger] before[j].0.model(),
            ),
        ser_text(before[ix].0.model()) == path[1],
    ensures
        forall|i: int| 0 <= i < after.len() ==> (#[trigger] after[i].0).inv() && after[i].1.inv(),
        forall|i: int, j: int|
            0 <= i < j < after.len() ==> ser_text(#[trigger] after[i].0.model()) != ser_text(
                #[trigger] after[j].0.model(),
            ),
        map_keys_entries(after) =~= map_keys_entries(before),
        map_values_entries(after) =~= map_values_entries(before).update(
            ix,
            (path[1], before[ix].1.accept_model(path.skip(2), value)),
        ),
        !r ==> (forall|i: int|
            0 <= i < after.len() ==> (#[trigger] after[i].0).repr_model()
                == before[i].0.repr_model() && after[i].1.repr_model()
                == before[i].1.repr_model()),
{
    assert forall|i: int| 0 <= i < after.len() implies (#[trigger] after[i].0).inv()
        && after[i].1.inv() by {
        if i != ix {
            assert(after[i] == before[i]);
        }
    }
    assert forall|i: int, j: int| 0 <= i < j < after.len() implies ser_text(
        #[trigger] after[i].0.model(),
    ) != ser_text(#[trigger] after[j].0.model()) by {
        assert(after[i].0.model() == before[i].0.model()) by {
            if i != ix {
                assert(after[i] == before[i]);
            }
        }
        assert(after[j].0.model() == before[j].0.model()) by {
            if j != ix {
                assert(after[j] == before[j]);
            }
        }
    }
    assert forall|i: int| 0 <= i < after.len() implies map_keys_entries(after)[i]
        == map_keys_entries(before)[i] by {
        if i != ix {
            assert(after[i] == before[i]);
        }
    }
    assert forall|i: int| 0 <= i < after.len() implies map_values_entries(after)[i]
        == map_values_entries(before).update(
        ix,
        (path[1], before[ix].1.accept_model(path.skip(2), value)),
    )[i] by {
        if i != ix {
            assert(after[i] == before[i]);
        }
    }
    if !r {
        assert forall|i: int|
            0 <= i < after.len() implies (#[trigger] after[i].0).repr_model()
            == before[i].0.repr_model() && after[i].1.repr_model()
            == before[i].1.repr_model() by {
            if i != ix {
                assert(after[i] == before[i]);
            }
        }
    }
}

} // verus!
