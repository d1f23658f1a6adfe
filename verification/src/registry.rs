//! The host-side core around the worker threads: the registry of live
//! variables, the dirty-tracking gate behind mutable guards, and the
//! framing of the line-oriented wire messages.
//!
//! The workers themselves perform I/O and therefore live outside the
//! verified crate; they call into the functions here for every decision
//! and every byte they write or parse.

use vstd::prelude::*;
use vstd::string::StrSliceExecFns;
use vstd::utf8::decode_utf8;
use vstd::utf8::encode_utf8;
use vstd::utf8::valid_utf8;

use crate::codec::dec_nat;
use crate::codec::u64_to_dec;
use crate::codec::DOT;
use crate::codec::MINUS;
use crate::codec::SEMI;
use crate::data::DeserializeError;
use crate::data::Parameter;
use crate::data::Value;

verus! {

/// Message tag bytes of the host-to-viewer frames.
pub const TAG_NEW: u8 = 110;

pub const TAG_SET: u8 = 115;

pub const TAG_REPR: u8 = 117;

pub const TAG_REMOVE: u8 = 114;

pub const NEWLINE: u8 = 10;

/// The single sentinel byte ending a connection.
pub const SENTINEL: u8 = 0;

/// A registry of live variables: an insertion-ordered table from variable
/// name to a handle, with unique names.
pub struct Registry<H> {
    entries: Vec<(String, H)>,
}

/// The index of the first entry named `k`, or `-1`.
pub open spec fn reg_find<H>(s: Seq<(String, H)>, k: Seq<char>) -> int
    decreases s.len(),
{
    if s.len() == 0 {
        -1
    } else if s[0].0@ == k {
        0
    } else {
        let rest = reg_find(s.drop_first(), k);
        if rest == -1 {
            -1
        } else {
            rest + 1
        }
    }
}

/// `reg_find` finds the first matching index, if any.
pub proof fn lemma_reg_find<H>(s: Seq<(String, H)>, k: Seq<char>)
    ensures
        -1 <= reg_find(s, k) < s.len(),
        reg_find(s, k) >= 0 ==> s[reg_find(s, k)].0@ == k,
        reg_find(s, k) >= 0 ==> forall|i: int| 0 <= i < reg_find(s, k) ==> s[i].0@ != k,
        reg_find(s, k) == -1 ==> forall|i: int| 0 <= i < s.len() ==> s[i].0@ != k,
    decreases s.len(),
{
    if s.len() > 0 && s[0].0@ != k {
        lemma_reg_find(s.drop_first(), k);
        assert forall|i: int| 1 <= i < s.len() implies s[i] == s.drop_first()[i - 1] by {}
    }
}

impl<H> View for Registry<H> {
    type V = Seq<(String, H)>;

    closed spec fn view(&self) -> Seq<(String, H)> {
        self.entries@
    }
}

impl<H> Registry<H> {
    /// All registered names are distinct.
    pub open spec fn wf(&self) -> bool {
        forall|i: int, j: int| 0 <= i < j < self@.len() ==> self@[i].0@ != self@[j].0@
    }

    pub fn new() -> (r: Registry<H>)
        ensures
            r@ == Seq::<(String, H)>::empty(),
            r.wf(),
    {
        Registry { entries: Vec::new() }
    }

    /// Register a handle under `name`.  A name already present keeps its
    /// position and takes the new handle; otherwise the entry is appended.
    pub fn register(&mut self, name: String, handle: H)
        ensures
            final(self)@ == (if reg_find(old(self)@, name@) >= 0 {
                old(self)@.update(reg_find(old(self)@, name@), (name, handle))
            } else {
                old(self)@.push((name, handle))
            }),
            old(self).wf() ==> final(self).wf(),
    {
        proof {
            lemma_reg_find(self@, name@);
        }
        let n: usize = self.entries.len();
        let mut i: usize = 0;
        while i < n
            invariant
                n == self.entries.len(),
                i <= n,
                forall|j: int| 0 <= j < i ==> self.entries@[j].0@ != name@,
                self == old(self),
            decreases n - i,
        {
            if crate::data::string_eq(&self.entries[i].0, &name) {
                proof {
                    lemma_reg_find_first(self@, name@, i as int);
                }
                self.entries.set(i, (name, handle));
                return;
            }
            i += 1;
        }
        self.entries.push((name, handle));
    }

    /// The handle registered under `name`, if any.
    pub fn get(&self, name: &String) -> (r: Option<&H>)
        ensures
            reg_find(self@, name@) >= 0 ==> (r matches Some(h) && *h == self@[reg_find(
                self@,
                name@,
            )].1),
            reg_find(self@, name@) == -1 ==> r is None,
    {
        proof {
            lemma_reg_find(self@, name@);
        }
        let n: usize = self.entries.len();
        let mut i: usize = 0;
        while i < n
            invariant
                n == self.entries.len(),
                i <= n,
                forall|j: int| 0 <= j < i ==> self.entries@[j].0@ != name@,
            decreases n - i,
        {
            if crate::data::string_eq(&self.entries[i].0, name) {
                proof {
                    lemma_reg_find_first(self@, name@, i as int);
                }
                return Some(&self.entries[i].1);
            }
            i += 1;
        }
        None
    }

    /// Unregister `name`.  Returns whether an entry was removed.
    pub fn unregister(&mut self, name: &String) -> (r: bool)
        ensures
            reg_find(old(self)@, name@) >= 0 ==> r && final(self)@ == old(self)@.remove(
                reg_find(old(self)@, name@),
            ),
            reg_find(old(self)@, name@) == -1 ==> !r && final(self)@ == old(self)@,
            old(self).wf() ==> final(self).wf(),
    {
        proof {
            lemma_reg_find(self@, name@);
        }
        let n: usize = self.entries.len();
        let mut i: usize = 0;
        while i < n
            invariant
                n == self.entries.len(),
                i <= n,
                forall|j: int| 0 <= j < i ==> self.entries@[j].0@ != name@,
                self == old(self),
            decreases n - i,
        {
            if crate::data::string_eq(&self.entries[i].0, name) {
                proof {
                    lemma_reg_find_first(self@, name@, i as int);
                }
                self.entries.remove(i);
                return true;
            }
            i += 1;
        }
        false
    }

    pub fn len(&self) -> (n: usize)
        ensures
            n == self@.len(),
    {
        self.entries.len()
    }
}

/// If the names before `i` all differ from `k` and entry `i` matches,
/// then `i` is the first match.
proof fn lemma_reg_find_first<H>(s: Seq<(String, H)>, k: Seq<char>, i: int)
    requires
        0 <= i < s.len(),
        s[i].0@ == k,
        forall|j: int| 0 <= j < i ==> s[j].0@ != k,
    ensures
        reg_find(s, k) == i,
    decreases s.len(),
{
    if i > 0 {
        assert forall|j: int| 0 <= j < i - 1 implies s.drop_first()[j].0@ != k by {
            assert(s.drop_first()[j] == s[j + 1]);
        }
        assert(s.drop_first()[i - 1] == s[i]);
        lemma_reg_find_first(s.drop_first(), k, i - 1);
    }
}

/// The dirty-tracking gate behind a mutable guard: it schedules exactly
/// one update message, on the first mutable dereference.
pub struct UpdateGate {
    pub armed: bool,
}

/// The number of update messages a sequence of `n` mutable dereferences
/// emits through a gate in state `armed`.
pub open spec fn emitted(armed: bool, n: nat) -> nat
    decreases n,
{
    if n == 0 {
        0
    } else {
        (if armed {
            1nat
        } else {
            0nat
        }) + emitted(false, (n - 1) as nat)
    }
}

impl UpdateGate {
    /// A fresh gate, armed when the guard is created.
    pub fn new() -> (r: UpdateGate)
        ensures
            r.armed,
    {
        UpdateGate { armed: true }
    }

    /// Called on each mutable dereference: whether to send the update
    /// message now.  Sends exactly once, on the first call.
    pub fn fire(&mut self) -> (send: bool)
        ensures
            send == old(self).armed,
            !final(self).armed,
    {
        let send = self.armed;
        self.armed = false;
        send
    }
}

/// Law: a guard that is never dereferenced mutably emits no update
/// message, and one dereferenced any positive number of times emits
/// exactly one.
pub proof fn lemma_dirty_tracking(n: nat)
    ensures
        emitted(true, n) == if n == 0 {
            0nat
        } else {
            1nat
        },
        emitted(false, n) == 0,
    decreases n,
{
    if n > 0 {
        lemma_dirty_tracking((n - 1) as nat);
    }
}

/// The length-prefixed form `<len>-<bytes>` of a payload.
pub open spec fn len_prefixed(payload: Seq<u8>) -> Seq<u8> {
    dec_nat(payload.len()) + seq![MINUS] + payload
}

/// The `n<name>;<repr>;<value>` frame announcing a new variable.
pub open spec fn frame_new_spec(name: Seq<char>, repr: Seq<u8>, value: Seq<u8>) -> Seq<u8> {
    seq![TAG_NEW] + encode_utf8(name) + seq![SEMI] + len_prefixed(repr) + seq![SEMI]
        + len_prefixed(value) + seq![NEWLINE]
}

/// The `s<name>;<value>` frame carrying an updated value.
pub open spec fn frame_update_spec(name: Seq<char>, value: Seq<u8>) -> Seq<u8> {
    seq![TAG_SET] + encode_utf8(name) + seq![SEMI] + len_prefixed(value) + seq![NEWLINE]
}

/// The `u<name>;<repr>;<value>` frame carrying a changed schema.
pub open spec fn frame_repr_spec(name: Seq<char>, repr: Seq<u8>, value: Seq<u8>) -> Seq<u8> {
    seq![TAG_REPR] + encode_utf8(name) + seq![SEMI] + len_prefixed(repr) + seq![SEMI]
        + len_prefixed(value) + seq![NEWLINE]
}

/// The `r<name>` frame removing a variable.
pub open spec fn frame_remove_spec(name: Seq<char>) -> Seq<u8> {
    seq![TAG_REMOVE] + encode_utf8(name) + seq![NEWLINE]
}

/// Append `<len>-<bytes>` to `out`.
fn push_len_prefixed(out: &mut Vec<u8>, payload: &Vec<u8>)
    ensures
        final(out)@ == old(out)@ + len_prefixed(payload@),
{
    let mut digits = u64_to_dec(payload.len() as u64);
    out.append(&mut digits);
    out.push(MINUS);
    let n: usize = payload.len();
    let mut i: usize = 0;
    let ghost mid = out@;
    while i < n
        invariant
            n == payload@.len(),
            i <= n,
            out@ == mid + payload@.take(i as int),
        decreases n - i,
    {
        out.push(payload[i]);
        proof {
            assert(out@ =~= mid + payload@.take(i + 1));
        }
        i += 1;
    }
    proof {
        assert(payload@.take(n as int) =~= payload@);
        assert(out@ =~= old(out)@ + len_prefixed(payload@));
    }
}

/// Append the bytes of `s` to `out`.
fn push_str_bytes(out: &mut Vec<u8>, s: &String)
    ensures
        final(out)@ == old(out)@ + encode_utf8(s@),
{
    let mut bytes = s.as_str().as_bytes_vec();
    out.append(&mut bytes);
}

/// Build the frame announcing a new variable.
pub fn frame_new(name: &String, repr: &Vec<u8>, value: &Vec<u8>) -> (r: Vec<u8>)
    ensures
        r@ == frame_new_spec(name@, repr@, value@),
{
    let mut out: Vec<u8> = Vec::new();
    out.push(TAG_NEW);
    push_str_bytes(&mut out, name);
    out.push(SEMI);
    push_len_prefixed(&mut out, repr);
    out.push(SEMI);
    push_len_prefixed(&mut out, value);
    out.push(NEWLINE);
    proof {
        assert(out@ =~= frame_new_spec(name@, repr@, value@));
    }
    out
}

/// Build the frame carrying an updated value.
pub fn frame_update(name: &String, value: &Vec<u8>) -> (r: Vec<u8>)
    ensures
        r@ == frame_update_spec(name@, value@),
{
    let mut out: Vec<u8> = Vec::new();
    out.push(TAG_SET);
    push_str_bytes(&mut out, name);
    out.push(SEMI);
    push_len_prefixed(&mut out, value);
    out.push(NEWLINE);
    proof {
        assert(out@ =~= frame_update_spec(name@, value@));
    }
    out
}

/// Build the frame carrying a changed schema and value.
pub fn frame_repr(name: &String, repr: &Vec<u8>, value: &Vec<u8>) -> (r: Vec<u8>)
    ensures
        r@ == frame_repr_spec(name@, repr@, value@),
{
    let mut out: Vec<u8> = Vec::new();
    out.push(TAG_REPR);
    push_str_bytes(&mut out, name);
    out.push(SEMI);
    push_len_prefixed(&mut out, repr);
    out.push(SEMI);
    push_len_prefixed(&mut out, value);
    out.push(NEWLINE);
    proof {
        assert(out@ =~= frame_repr_spec(name@, repr@, value@));
    }
    out
}

/// Build the frame removing a variable.
pub fn frame_remove(name: &String) -> (r: Vec<u8>)
    ensures
        r@ == frame_remove_spec(name@),
{
    let mut out: Vec<u8> = Vec::new();
    out.push(TAG_REMOVE);
    push_str_bytes(&mut out, name);
    out.push(NEWLINE);
    proof {
        assert(out@ =~= frame_remove_spec(name@));
    }
    out
}

/// The sentinel frame ending the connection.
pub fn frame_sentinel() -> (r: Vec<u8>)
    ensures
        r@ == seq![SENTINEL],
{
    let mut out: Vec<u8> = Vec::new();
    out.push(SENTINEL);
    proof {
        assert(out@ =~= seq![SENTINEL]);
    }
    out
}

/// A set request from the viewer, already parsed.
pub struct SetRequest {
    /// The full wire path: the variable name followed by field names.
    pub path: Vec<String>,
    /// The value to apply.
    pub value: Parameter<Value>,
}

/// The dot-separated pieces of a wire path.
pub open spec fn path_pieces(b: Seq<u8>) -> Seq<Seq<u8>> {
    crate::codec::split_from(b, 0, DOT)
}

/// Parse a viewer `s` message: the path bytes (without the `;`) and the
/// exact value bytes.  The path splits on `.`; the value parses as one
/// parameter.
pub fn parse_set_message(path_bytes: &Vec<u8>, value_bytes: &Vec<u8>) -> (r: Result<
    SetRequest,
    DeserializeError,
>)
    ensures
        r matches Ok(req) ==> {
            &&& crate::codec::pieces_valid(path_pieces(path_bytes@))
            &&& req.path.deep_view() == path_pieces(path_bytes@).map(
                |k: int, p: Seq<u8>| decode_utf8(p),
            )
            &&& crate::codec::parse_param(value_bytes@, 0) matches Ok(pr) && req.value@ == pr.0
        },
        r matches Err(e) ==> (!crate::codec::pieces_valid(path_pieces(path_bytes@))
            || crate::codec::parse_param(value_bytes@, 0) is Err),
{
    let path = match split_decode(path_bytes, DOT) {
        Some(p) => p,
        None => {
            return Err(DeserializeError::NonUTF8);
        },
    };
    match Parameter::<Value>::deserialize(value_bytes) {
        Ok((value, _consumed)) => Ok(SetRequest { path, value }),
        Err(e) => Err(e),
    }
}

/// Parse a viewer `t` message: the path bytes without the line end.
/// The path splits on `.`; the caller fires the addressed trigger with
/// the canonical trigger message.
pub fn parse_trigger_message(path_bytes: &Vec<u8>) -> (r: Result<Vec<String>, DeserializeError>)
    ensures
        r matches Ok(path) ==> {
            &&& crate::codec::pieces_valid(path_pieces(path_bytes@))
            &&& path.deep_view() == path_pieces(path_bytes@).map(
                |k: int, p: Seq<u8>| decode_utf8(p),
            )
        },
        r is Err ==> !crate::codec::pieces_valid(path_pieces(path_bytes@)),
{
    match split_decode(path_bytes, DOT) {
        Some(p) => Ok(p),
        None => Err(DeserializeError::NonUTF8),
    }
}

/// Split `b` on `sep` and decode every piece; `None` if a piece is not
/// valid UTF-8.
fn split_decode(b: &Vec<u8>, sep: u8) -> (r: Option<Vec<String>>)
    ensures
        r matches Some(v) ==> {
            &&& crate::codec::pieces_valid(crate::codec::split_from(b@, 0, sep))
            &&& v.deep_view() == crate::codec::split_from(b@, 0, sep).map(
                |k: int, p: Seq<u8>| decode_utf8(p),
            )
        },
        r is None ==> !crate::codec::pieces_valid(crate::codec::split_from(b@, 0, sep)),
{
    let ghost pieces = crate::codec::split_from(b@, 0, sep);
    let mut out: Vec<String> = Vec::new();
    let mut pos: usize = 0;
    let ghost mut done: Seq<Seq<u8>> = Seq::empty();
    let mut finished = false;
    while !finished
        invariant
            pos <= b@.len(),
            pieces == crate::codec::split_from(b@, 0, sep),
            !finished ==> pieces =~= done + crate::codec::split_from(b@, pos as int, sep),
            finished ==> pieces =~= done,
            out@.len() == done.len(),
            forall|t: int|
                0 <= t < done.len() ==> valid_utf8(#[trigger] done[t]) && out@[t]@ == decode_utf8(
                    done[t],
                ),
        decreases b@.len() - pos + (if finished {
            0int
        } else {
            1int
        }),
    {
        match crate::codec::find_byte(b, pos, sep) {
            None => {
                let piece = crate::codec::subvec(b, pos, b.len());
                proof {
                    assert(crate::codec::split_from(b@, pos as int, sep) == seq![
                        b@.subrange(pos as int, b@.len() as int),
                    ]);
                }
                match crate::codec::string_from_utf8(piece) {
                    None => {
                        proof {
                            assert(pieces[done.len() as int] == b@.subrange(
                                pos as int,
                                b@.len() as int,
                            ));
                            assert(!crate::codec::pieces_valid(pieces));
                        }
                        return None;
                    },
                    Some(s) => {
                        out.push(s);
                        proof {
                            done = done.push(b@.subrange(pos as int, b@.len() as int));
                        }
                        finished = true;
                    },
                }
            },
            Some(q) => {
                let piece = crate::codec::subvec(b, pos, q);
                proof {
                    crate::codec::lemma_find_stop(b@, pos as int, sep);
                    assert(crate::codec::split_from(b@, pos as int, sep) == seq![
                        b@.subrange(pos as int, q as int),
                    ] + crate::codec::split_from(b@, q + 1, sep));
                }
                match crate::codec::string_from_utf8(piece) {
                    None => {
                        proof {
                            assert(pieces[done.len() as int] == b@.subrange(pos as int, q as int));
                            assert(!crate::codec::pieces_valid(pieces));
                        }
                        return None;
                    },
                    Some(s) => {
                        out.push(s);
                        let blen: usize = b.len();
                        proof {
                            done = done.push(b@.subrange(pos as int, q as int));
                            assert(q < blen);
                        }
                        pos = q + 1;
                    },
                }
            },
        }
    }
    proof {
        assert(crate::codec::pieces_valid(pieces)) by {
            assert forall|t: int| 0 <= t < pieces.len() implies valid_utf8(
                #[trigger] pieces[t],
            ) by {
                assert(pieces[t] == done[t]);
            }
        }
        assert(out.deep_view() =~= pieces.map(|k: int, p: Seq<u8>| decode_utf8(p))) by {
            assert forall|t: int| 0 <= t < done.len() implies out.deep_view()[t] == pieces.map(
                |k: int, p: Seq<u8>| decode_utf8(p),
            )[t] by {
                assert(out.deep_view()[t] == out@[t]@);
            }
        }
    }
    Some(out)
}

} // verus!
