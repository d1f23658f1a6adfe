//! The value/schema data model: parameter trees and ordered field maps.
//!
//! A `Parameter` is a leaf value (integer, boolean, string, or the decimal
//! text of a floating-point number) or a nested `Namespaced` tree.  The same
//! shape describes both a type's editor schema and a variable's live
//! contents; the phantom marker (`Repr` or `Value`) keeps the two purposes
//! apart at the type level.
//!
//! Contracts speak of the mathematical views `ParamView` and `NodeView`:
//! trees over character sequences, free of any particular `String`
//! allocation.

use vstd::prelude::*;

verus! {

/// Marker type: the tree describes a schema.
#[derive(Clone, Copy, Debug, PartialEq, Eq)]
pub struct Repr;

/// Marker type: the tree carries live contents.
#[derive(Clone, Copy, Debug, PartialEq, Eq)]
pub struct Value;

/// An error from `deserialize`: the input bytes do not follow the wire form.
#[derive(Debug, Clone, PartialEq, Eq)]
pub enum DeserializeError {
    /// The input ended in the middle of a tree.
    UnexpectedEOF,
    /// A `}` appeared inside a field key; `previous` holds the partial
    /// key read so far, lossily decoded.
    UnexpectedTerminator { previous: String },
    /// An unknown kind tag byte.
    InvalidParameter(u8),
    /// A name, key or string payload was not valid UTF-8.
    NonUTF8,
    /// A numeric payload was empty, malformed, or out of range.
    InvalidNumber,
}

/// A value in the message transfer system: a leaf or a namespaced tree.
#[derive(Debug)]
pub enum Parameter<T> {
    SignedInt(i64),
    UnsignedInt(u64),
    /// The decimal text of a floating-point number, e.g. `"6.4"`.
    /// The crate stores and transports the text; turning it into a native
    /// float is left to the host.
    Float(String),
    Bool(bool),
    String(String),
    Namespaced(Namespaced<T>),
}

/// A namespaced tree: a `:`-joined type name and an insertion-ordered
/// mapping from field name to `Parameter`.
#[derive(Debug)]
pub struct Namespaced<T> {
    pub name: Vec<String>,
    pub parameters: Fields<T>,
    pub marker: core::marker::PhantomData<T>,
}

/// An insertion-ordered mapping from field name to `Parameter`.
///
/// Keys are unique when the map is built through `insert` alone; its view
/// is the sequence of `(key, value)` views in insertion order.
///
/// This is implemented and verified directly rather than borrowed from a
/// linked-hash-map crate behind a trusted declaration: the value type is
/// `Parameter<T>`, which itself contains the map, and Verus rejects such
/// a container declaration (`reject_recursive_types` forbids the value
/// parameter to reach back into the container); hiding the container in
/// an opaque struct would in turn need an uninterpreted contents
/// function, which cannot be written for a generic type.  `insert` keeps
/// the replace-in-place, append-at-end semantics such a map has.
#[derive(Debug)]
pub struct Fields<T> {
    pub(crate) entries: Vec<(String, Parameter<T>)>,
}

/// The mathematical form of a `Parameter`: the same tree over character
/// sequences.
#[verifier::ext_equal]
pub enum ParamView {
    SignedInt(i64),
    UnsignedInt(u64),
    Float(Seq<char>),
    Bool(bool),
    Str(Seq<char>),
    Namespaced(NodeView),
}

/// The mathematical form of a `Namespaced` tree.
#[verifier::ext_equal]
pub struct NodeView {
    pub name: Seq<Seq<char>>,
    pub fields: Seq<(Seq<char>, ParamView)>,
}

/// The view of a parameter tree.
pub open spec fn pview<T>(p: Parameter<T>) -> ParamView
    decreases p,
{
    match p {
        Parameter::SignedInt(i) => ParamView::SignedInt(i),
        Parameter::UnsignedInt(u) => ParamView::UnsignedInt(u),
        Parameter::Float(s) => ParamView::Float(s@),
        Parameter::Bool(b) => ParamView::Bool(b),
        Parameter::String(s) => ParamView::Str(s@),
        Parameter::Namespaced(n) => ParamView::Namespaced(nview(n)),
    }
}

/// The view of a namespaced tree.
pub open spec fn nview<T>(n: Namespaced<T>) -> NodeView
    decreases n,
{
    NodeView { name: n.name.deep_view(), fields: n.parameters@ }
}

/// The view of a sequence of field entries.
pub open spec fn fview<T>(s: Seq<(String, Parameter<T>)>) -> Seq<(Seq<char>, ParamView)>
    decreases s,
{
    if s.len() == 0 {
        Seq::empty()
    } else {
        fview(s.drop_last()).push((s.last().0@, pview(s.last().1)))
    }
}

impl<T> View for Parameter<T> {
    type V = ParamView;

    open spec fn view(&self) -> ParamView {
        pview(*self)
    }
}

impl<T> View for Namespaced<T> {
    type V = NodeView;

    open spec fn view(&self) -> NodeView {
        nview(*self)
    }
}

impl<T> View for Fields<T> {
    type V = Seq<(Seq<char>, ParamView)>;

    closed spec fn view(&self) -> Seq<(Seq<char>, ParamView)>
        decreases self,
    {
        fview(self.entries@)
    }
}

/// The view of a field map is the view of its raw entries.
pub(crate) proof fn lemma_fields_view<T>(f: Fields<T>)
    ensures
        f@ == fview(f.entries@),
{
}

/// `fview` maps entries one for one.
pub proof fn lemma_fview_len<T>(s: Seq<(String, Parameter<T>)>)
    ensures
        fview(s).len() == s.len(),
        forall|i: int|
            0 <= i < s.len() ==> #[trigger] fview(s)[i] == (s[i].0@, pview(s[i].1)),
    decreases s,
{
    if s.len() > 0 {
        lemma_fview_len(s.drop_last());
        assert forall|i: int|
            0 <= i < s.len() implies #[trigger] fview(s)[i] == (s[i].0@, pview(s[i].1)) by {
            if i < s.len() - 1 {
                assert(s.drop_last()[i] == s[i]);
                assert(fview(s)[i] == fview(s.drop_last())[i]);
            }
        }
    }
}

impl<T> Namespaced<T> {
    pub fn new(name: Vec<String>, parameters: Fields<T>) -> (r: Namespaced<T>)
        ensures
            r@ == (NodeView { name: name.deep_view(), fields: parameters@ }),
            r.name == name,
            r.parameters == parameters,
    {
        Namespaced { name, parameters, marker: core::marker::PhantomData }
    }
}

/// The index of the first entry of `s` whose key is `k`, or `-1`.
pub open spec fn find_key(s: Seq<(Seq<char>, ParamView)>, k: Seq<char>) -> int
    decreases s.len(),
{
    if s.len() == 0 {
        -1
    } else if s[0].0 == k {
        0
    } else {
        let rest = find_key(s.drop_first(), k);
        if rest == -1 {
            -1
        } else {
            rest + 1
        }
    }
}

/// `find_key` finds the first matching index, if any.
pub proof fn lemma_find_key(s: Seq<(Seq<char>, ParamView)>, k: Seq<char>)
    ensures
        -1 <= find_key(s, k) < s.len(),
        find_key(s, k) >= 0 ==> s[find_key(s, k)].0 == k,
        find_key(s, k) >= 0 ==> forall|i: int| 0 <= i < find_key(s, k) ==> s[i].0 != k,
        find_key(s, k) == -1 ==> forall|i: int| 0 <= i < s.len() ==> s[i].0 != k,
    decreases s.len(),
{
    if s.len() > 0 && s[0].0 != k {
        lemma_find_key(s.drop_first(), k);
        assert forall|i: int| 1 <= i < s.len() implies s[i] == s.drop_first()[i - 1] by {}
    }
}

/// Every key occurs at most once.
pub open spec fn keys_unique(s: Seq<(Seq<char>, ParamView)>) -> bool {
    forall|i: int, j: int| 0 <= i < j < s.len() ==> s[i].0 != s[j].0
}

impl<T> Fields<T> {
    /// An empty map.
    pub fn new() -> (r: Fields<T>)
        ensures
            r@ == Seq::<(Seq<char>, ParamView)>::empty(),
    {
        Fields { entries: Vec::new() }
    }

    pub fn len(&self) -> (n: usize)
        ensures
            n == self@.len(),
    {
        proof {
            lemma_fview_len(self.entries@);
        }
        self.entries.len()
    }

    /// The entry at position `i`, in insertion order.
    pub fn entry_at(&self, i: usize) -> (r: &(String, Parameter<T>))
        requires
            i < self@.len(),
        ensures
            (r.0@, r.1@) == self@[i as int],
    {
        proof {
            lemma_fview_len(self.entries@);
        }
        &self.entries[i]
    }

    /// Insert `v` under `k`.  If `k` is already present the value is
    /// replaced in place and the entry keeps its position; otherwise the
    /// entry is appended at the end.
    pub fn insert(&mut self, k: String, v: Parameter<T>)
        ensures
            final(self)@ == (if find_key(old(self)@, k@) >= 0 {
                old(self)@.update(find_key(old(self)@, k@), (k@, v@))
            } else {
                old(self)@.push((k@, v@))
            }),
    {
        proof {
            lemma_find_key(self@, k@);
            lemma_fview_len(self.entries@);
        }
        let ghost old_entries = self.entries@;
        let n: usize = self.entries.len();
        let mut i: usize = 0;
        while i < n
            invariant
                n == self.entries.len(),
                i <= n,
                forall|j: int| 0 <= j < i ==> self.entries@[j].0@ != k@,
                self == old(self),
                old_entries == self.entries@,
            decreases n - i,
        {
            if string_eq(&self.entries[i].0, &k) {
                proof {
                    lemma_fview_len(self.entries@);
                    lemma_find_key_from_entries(self.entries@, k@, i as int);
                }
                let ghost vv = v@;
                let old_key = self.entries[i].0.clone();
                proof {
                    assert(old_entries == self.entries@);
                    lemma_fview_update(self.entries@, i as int, (old_key, v));
                }
                self.entries.set(i, (old_key, v));
                proof {
                    assert(self@ =~= old(self)@.update(i as int, (k@, vv)));
                }
                return;
            }
            i += 1;
        }
        proof {
            lemma_fview_len(self.entries@);
            lemma_find_key_none_from_entries(self.entries@, k@);
        }
        self.entries.push((k, v));
        proof {
            assert(self.entries@.drop_last() =~= old_entries);
            assert(self.entries@.last() == (k, v));
            assert(self@ == fview(old_entries).push((k@, v@)));
        }
    }

    /// Look up the value stored under key `k`.
    pub fn get(&self, k: &String) -> (r: Option<&Parameter<T>>)
        ensures
            find_key(self@, k@) >= 0 ==> (r matches Some(p) && p@ == self@[find_key(self@, k@)].1),
            find_key(self@, k@) == -1 ==> r is None,
    {
        proof {
            lemma_find_key(self@, k@);
            lemma_fview_len(self.entries@);
        }
        let n: usize = self.entries.len();
        let mut i: usize = 0;
        while i < n
            invariant
                n == self.entries.len(),
                i <= n,
                forall|j: int| 0 <= j < i ==> self.entries@[j].0@ != k@,
            decreases n - i,
        {
            if string_eq(&self.entries[i].0, k) {
                proof {
                    lemma_fview_len(self.entries@);
                    lemma_find_key_from_entries(self.entries@, k@, i as int);
                }
                return Some(&self.entries[i].1);
            }
            i += 1;
        }
        proof {
            lemma_find_key_none_from_entries(self.entries@, k@);
        }
        None
    }
}

/// Updating one entry updates the same position of the view.
proof fn lemma_fview_update<T>(s: Seq<(String, Parameter<T>)>, i: int, e: (String, Parameter<T>))
    requires
        0 <= i < s.len(),
    ensures
        fview(s.update(i, e)) =~= fview(s).update(i, (e.0@, pview(e.1))),
{
    lemma_fview_len(s);
    lemma_fview_len(s.update(i, e));
    assert forall|j: int| 0 <= j < s.len() implies fview(s.update(i, e))[j] == fview(s).update(
        i,
        (e.0@, pview(e.1)),
    )[j] by {
        assert(fview(s.update(i, e))[j] == (s.update(i, e)[j].0@, pview(s.update(i, e)[j].1)));
        assert(fview(s)[j] == (s[j].0@, pview(s[j].1)));
        if j != i {
            assert(s.update(i, e)[j] == s[j]);
        }
    }
}

/// If entry `i` is the first with key `k` in the raw entries, `find_key`
/// on the view is `i`.
proof fn lemma_find_key_from_entries<T>(s: Seq<(String, Parameter<T>)>, k: Seq<char>, i: int)
    requires
        0 <= i < s.len(),
        s[i].0@ == k,
        forall|j: int| 0 <= j < i ==> s[j].0@ != k,
    ensures
        find_key(fview(s), k) == i,
{
    lemma_fview_len(s);
    lemma_find_key(fview(s), k);
    assert(fview(s)[i] == (s[i].0@, pview(s[i].1)));
    let r = find_key(fview(s), k);
    if 0 <= r < i {
        assert(fview(s)[r] == (s[r].0@, pview(s[r].1)));
        assert(s[r].0@ != k);
    }
}

/// If no raw entry has key `k`, `find_key` on the view is `-1`.
proof fn lemma_find_key_none_from_entries<T>(s: Seq<(String, Parameter<T>)>, k: Seq<char>)
    requires
        forall|j: int| 0 <= j < s.len() ==> s[j].0@ != k,
    ensures
        find_key(fview(s), k) == -1,
{
    lemma_fview_len(s);
    lemma_find_key(fview(s), k);
    let r = find_key(fview(s), k);
    if r >= 0 {
        assert(fview(s)[r] == (s[r].0@, pview(s[r].1)));
        assert(s[r].0@ != k);
    }
}

/// Equality of two strings, by their character sequences.
pub fn string_eq(a: &String, b: &String) -> (r: bool)
    ensures
        r == (a@ == b@),
{
    *a == *b
}

impl<T> Parameter<T> {
    pub fn try_into_signed_int(self) -> (r: Result<i64, Parameter<T>>)
        ensures
            self@ matches ParamView::SignedInt(v) ==> (r matches Ok(x) && x == v),
            !(self@ is SignedInt) ==> (r matches Err(p) && p == self),
    {
        if let Parameter::SignedInt(v) = self {
            Ok(v)
        } else {
            Err(self)
        }
    }

    pub fn try_into_unsigned_int(self) -> (r: Result<u64, Parameter<T>>)
        ensures
            self@ matches ParamView::UnsignedInt(v) ==> (r matches Ok(x) && x == v),
            !(self@ is UnsignedInt) ==> (r matches Err(p) && p == self),
    {
        if let Parameter::UnsignedInt(v) = self {
            Ok(v)
        } else {
            Err(self)
        }
    }

    /// On a float leaf, the decimal text of the number.
    pub fn try_into_float(self) -> (r: Result<String, Parameter<T>>)
        ensures
            self@ matches ParamView::Float(v) ==> (r matches Ok(x) && x@ == v),
            !(self@ is Float) ==> (r matches Err(p) && p == self),
    {
        if let Parameter::Float(v) = self {
            Ok(v)
        } else {
            Err(self)
        }
    }

    pub fn try_into_bool(self) -> (r: Result<bool, Parameter<T>>)
        ensures
            self@ matches ParamView::Bool(v) ==> (r matches Ok(x) && x == v),
            !(self@ is Bool) ==> (r matches Err(p) && p == self),
    {
        if let Parameter::Bool(v) = self {
            Ok(v)
        } else {
            Err(self)
        }
    }

    pub fn try_into_string(self) -> (r: Result<String, Parameter<T>>)
        ensures
            self@ matches ParamView::Str(v) ==> (r matches Ok(x) && x@ == v),
            !(self@ is Str) ==> (r matches Err(p) && p == self),
    {
        if let Parameter::String(v) = self {
            Ok(v)
        } else {
            Err(self)
        }
    }

    pub fn try_into_namespaced(self) -> (r: Result<Namespaced<T>, Parameter<T>>)
        ensures
            self@ matches ParamView::Namespaced(v) ==> (r matches Ok(x) && x@ == v),
            !(self@ is Namespaced) ==> (r matches Err(p) && p == self),
    {
        if let Parameter::Namespaced(v) = self {
            Ok(v)
        } else {
            Err(self)
        }
    }

    pub fn as_signed_int(&self) -> (r: Option<&i64>)
        ensures
            self@ matches ParamView::SignedInt(v) ==> (r matches Some(x) && *x == v),
            !(self@ is SignedInt) ==> r is None,
    {
        if let Parameter::SignedInt(v) = self {
            Some(v)
        } else {
            None
        }
    }

    pub fn as_unsigned_int(&self) -> (r: Option<&u64>)
        ensures
            self@ matches ParamView::UnsignedInt(v) ==> (r matches Some(x) && *x == v),
            !(self@ is UnsignedInt) ==> r is None,
    {
        if let Parameter::UnsignedInt(v) = self {
            Some(v)
        } else {
            None
        }
    }

    /// On a float leaf, the decimal text of the number.
    pub fn as_float(&self) -> (r: Option<&String>)
        ensures
            self@ matches ParamView::Float(v) ==> (r matches Some(x) && x@ == v),
            !(self@ is Float) ==> r is None,
    {
        if let Parameter::Float(v) = self {
            Some(v)
        } else {
            None
        }
    }

    pub fn as_bool(&self) -> (r: Option<&bool>)
        ensures
            self@ matches ParamView::Bool(v) ==> (r matches Some(x) && *x == v),
            !(self@ is Bool) ==> r is None,
    {
        if let Parameter::Bool(v) = self {
            Some(v)
        } else {
            None
        }
    }

    pub fn as_string(&self) -> (r: Option<&String>)
        ensures
            self@ matches ParamView::Str(v) ==> (r matches Some(x) && x@ == v),
            !(self@ is Str) ==> r is None,
    {
        if let Parameter::String(v) = self {
            Some(v)
        } else {
            None
        }
    }

    pub fn as_namespaced(&self) -> (r: Option<&Namespaced<T>>)
        ensures
            self@ matches ParamView::Namespaced(v) ==> (r matches Some(x) && x@ == v),
            !(self@ is Namespaced) ==> r is None,
    {
        if let Parameter::Namespaced(v) = self {
            Some(v)
        } else {
            None
        }
    }
}

/// Two raw entry sequences with the same key and value views have the
/// same field view.
proof fn lemma_fview_congruence<T>(a: Seq<(String, Parameter<T>)>, b: Seq<(String, Parameter<T>)>)
    requires
        a.len() == b.len(),
        forall|i: int| 0 <= i < a.len() ==> a[i].0@ == b[i].0@ && a[i].1@ == b[i].1@,
    ensures
        fview(a) =~= fview(b),
{
    lemma_fview_len(a);
    lemma_fview_len(b);
    assert forall|i: int| 0 <= i < a.len() implies fview(a)[i] == fview(b)[i] by {
        assert(fview(a)[i] == (a[i].0@, pview(a[i].1)));
        assert(fview(b)[i] == (b[i].0@, pview(b[i].1)));
    }
}

/// A deep copy of a parameter tree, equal to the original in view.
fn clone_param<T>(p: &Parameter<T>) -> (r: Parameter<T>)
    ensures
        r@ == p@,
    decreases *p,
{
    match p {
        Parameter::SignedInt(i) => Parameter::SignedInt(*i),
        Parameter::UnsignedInt(u) => Parameter::UnsignedInt(*u),
        Parameter::Float(s) => Parameter::Float(s.clone()),
        Parameter::Bool(b) => Parameter::Bool(*b),
        Parameter::String(s) => Parameter::String(s.clone()),
        Parameter::Namespaced(n) => Parameter::Namespaced(clone_node(n)),
    }
}

/// A deep copy of a namespaced tree, equal to the original in view.
fn clone_node<T>(n: &Namespaced<T>) -> (r: Namespaced<T>)
    ensures
        r@ == n@,
    decreases *n,
{
    let mut name: Vec<String> = Vec::new();
    let name_len: usize = n.name.len();
    let mut i: usize = 0;
    while i < name_len
        invariant
            name_len == n.name.len(),
            i <= name_len,
            name@.len() == i,
            forall|j: int| 0 <= j < i ==> name@[j]@ == n.name@[j]@,
        decreases name_len - i,
    {
        name.push(n.name[i].clone());
        i += 1;
    }
    proof {
        assert forall|j: int| 0 <= j < name@.len() implies name.deep_view()[j]
            == n.name.deep_view()[j] by {
            assert(name.deep_view()[j] == name@[j]@);
            assert(n.name.deep_view()[j] == n.name@[j]@);
        }
        assert(name.deep_view() =~= n.name.deep_view());
    }
    let entries = clone_entry_vec(&n.parameters.entries);
    let fields = Fields { entries };
    proof {
        assert(fields@ == n.parameters@);
    }
    Namespaced { name, parameters: fields, marker: core::marker::PhantomData }
}

/// A deep copy of a raw entry vector, entrywise equal in view.
pub(crate) fn clone_entry_vec<T>(v: &Vec<(String, Parameter<T>)>) -> (r: Vec<(String, Parameter<T>)>)
    ensures
        fview(r@) == fview(v@),
    decreases *v,
{
    let mut out: Vec<(String, Parameter<T>)> = Vec::new();
    let n: usize = v.len();
    let mut i: usize = 0;
    while i < n
        invariant
            n == v.len(),
            i <= n,
            out.len() == i,
            forall|j: int| 0 <= j < i ==> out@[j].0@ == v@[j].0@ && out@[j].1@ == v@[j].1@,
        decreases n - i,
    {
        let key = v[i].0.clone();
        let val = clone_param(&v[i].1);
        out.push((key, val));
        i += 1;
    }
    proof {
        lemma_fview_congruence(out@, v@);
    }
    out
}

impl<T> Clone for Parameter<T> {
    /// A deep copy, equal to the original in view.
    fn clone(&self) -> (r: Self)
        ensures
            r@ == self@,
    {
        clone_param(self)
    }
}

impl<T> Clone for Namespaced<T> {
    /// A deep copy, equal to the original in view.
    fn clone(&self) -> (r: Self)
        ensures
            r@ == self@,
    {
        clone_node(self)
    }
}

impl<T> Clone for Fields<T> {
    /// A deep copy, equal to the original in view.
    fn clone(&self) -> (r: Self)
        ensures
            r@ == self@,
    {
        Fields { entries: clone_entry_vec(&self.entries) }
    }
}

} // verus!
