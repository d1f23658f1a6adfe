//! The wire codec: serialization of parameter trees to bytes and back.
//!
//! `Namespaced` serializes as `ns1:ns2{key1=val1;key2=val2;}`; a `Parameter`
//! carries a one-byte kind tag: signed `i<N>`, unsigned `u<N>`, float text
//! `d<N>`, boolean `t`/`f`, string `s<byte-length>-<bytes>`, nested
//! `n<namespaced>`.  String payloads are length-prefixed, so any byte may
//! occur inside them; names and keys must avoid the delimiter bytes.

use vstd::prelude::*;
use vstd::string::StrSliceExecFns;
use vstd::utf8::decode_utf8;
use vstd::utf8::encode_utf8;
use vstd::utf8::valid_utf8;

use crate::data::DeserializeError;
use crate::data::Fields;
use crate::data::Namespaced;
use crate::data::NodeView;
use crate::data::ParamView;
use crate::data::Parameter;

verus! {

/// Delimiter and tag bytes of the wire form.
pub const B0: u8 = 48;

pub const B9: u8 = 57;

pub const MINUS: u8 = 45;

pub const DOT: u8 = 46;

pub const COLON: u8 = 58;

pub const LBRACE: u8 = 123;

pub const RBRACE: u8 = 125;

pub const EQUALS: u8 = 61;

pub const SEMI: u8 = 59;

pub const TAG_SIGNED: u8 = 105;

pub const TAG_UNSIGNED: u8 = 117;

pub const TAG_FLOAT: u8 = 100;

pub const TAG_TRUE: u8 = 116;

pub const TAG_FALSE: u8 = 102;

pub const TAG_STRING: u8 = 115;

pub const TAG_NESTED: u8 = 110;

/// An ASCII decimal digit.
pub open spec fn is_digit(b: u8) -> bool {
    B0 <= b <= B9
}

/// A byte that may occur in an integer numeral: a digit or `-`.
pub open spec fn is_int_byte(b: u8) -> bool {
    is_digit(b) || b == MINUS
}

/// A byte that may occur in a float numeral: a digit, `-` or `.`.
pub open spec fn is_float_byte(b: u8) -> bool {
    is_digit(b) || b == MINUS || b == DOT
}

/// The decimal numeral of `n`, most significant digit first.
pub open spec fn dec_nat(n: nat) -> Seq<u8>
    decreases n,
{
    if n < 10 {
        seq![(B0 + n) as u8]
    } else {
        dec_nat(n / 10).push((B0 + n % 10) as u8)
    }
}

/// The decimal numeral of `i`, with a leading `-` when negative.
pub open spec fn dec_int(i: int) -> Seq<u8> {
    if i >= 0 {
        dec_nat(i as nat)
    } else {
        seq![MINUS] + dec_nat((-i) as nat)
    }
}

/// The value of a digit sequence read in base ten.
pub open spec fn digits_val(s: Seq<u8>) -> nat
    decreases s,
{
    if s.len() == 0 {
        0
    } else {
        digits_val(s.drop_last()) * 10 + ((s.last() - B0) as nat)
    }
}

/// All bytes of `s` are decimal digits.
pub open spec fn all_digits(s: Seq<u8>) -> bool {
    forall|i: int| 0 <= i < s.len() ==> is_digit(#[trigger] s[i])
}

/// Decimal numerals consist of digits and read back to their value.
pub proof fn lemma_dec_nat(n: nat)
    ensures
        dec_nat(n).len() >= 1,
        all_digits(dec_nat(n)),
        digits_val(dec_nat(n)) == n,
    decreases n,
{
    if n < 10 {
        assert((B0 + n) as u8 == B0 + n);
        let s = dec_nat(n);
        assert(s.drop_last() =~= Seq::<u8>::empty());
        assert(digits_val(s) == digits_val(s.drop_last()) * 10 + ((s.last() - B0) as nat));
        assert(digits_val(dec_nat(n)) == n);
    } else {
        lemma_dec_nat(n / 10);
        let s = dec_nat(n);
        assert(s.drop_last() =~= dec_nat(n / 10));
        assert((B0 + n % 10) as u8 == B0 + n % 10);
        assert(digits_val(s) == (n / 10) * 10 + n % 10);
        assert forall|i: int| 0 <= i < s.len() implies is_digit(#[trigger] s[i]) by {
            if i < s.len() - 1 {
                assert(s[i] == dec_nat(n / 10)[i]);
            }
        }
    }
}

/// Extending a digit sequence multiplies its value by ten and adds the digit.
pub proof fn lemma_digits_val_take(s: Seq<u8>, i: int)
    requires
        0 <= i < s.len(),
        is_digit(s[i]),
    ensures
        digits_val(s.take(i + 1)) == digits_val(s.take(i)) * 10 + (s[i] - B0),
{
    assert(s.take(i + 1).drop_last() =~= s.take(i));
    assert(s.take(i + 1).last() == s[i]);
}

/// A longer digit prefix never has a smaller value.
pub proof fn lemma_digits_val_mono(s: Seq<u8>, i: int, j: int)
    requires
        0 <= i <= j <= s.len(),
        all_digits(s),
    ensures
        digits_val(s.take(i)) <= digits_val(s.take(j)),
    decreases j - i,
{
    if i < j {
        lemma_digits_val_mono(s, i, j - 1);
        lemma_digits_val_take(s, j - 1);
    }
}

/// Exec form of `dec_nat`.
pub fn u64_to_dec(n: u64) -> (r: Vec<u8>)
    ensures
        r@ == dec_nat(n as nat),
    decreases n,
{
    if n < 10 {
        let mut v: Vec<u8> = Vec::new();
        v.push(B0 + (n as u8));
        proof {
            assert(v@ =~= dec_nat(n as nat));
        }
        v
    } else {
        let mut v = u64_to_dec(n / 10);
        v.push(B0 + ((n % 10) as u8));
        v
    }
}

/// Exec form of `dec_int` for `i64`.
pub fn i64_to_dec(i: i64) -> (r: Vec<u8>)
    ensures
        r@ == dec_int(i as int),
{
    if i >= 0 {
        u64_to_dec(i as u64)
    } else {
        let mag: u64 = ((-(i as i128)) as u64);
        let mut v: Vec<u8> = Vec::new();
        v.push(MINUS);
        let mut digits = u64_to_dec(mag);
        v.append(&mut digits);
        proof {
            assert(v@ =~= dec_int(i as int));
        }
        v
    }
}

/// Read the digits `b[start..end]` as a base-ten number.
/// Returns `None` exactly when the value exceeds `u64::MAX`.
pub fn parse_digits_u64(b: &Vec<u8>, start: usize, end: usize) -> (r: Option<u64>)
    requires
        start <= end <= b@.len(),
        all_digits(b@.subrange(start as int, end as int)),
    ensures
        r matches Some(v) ==> v == digits_val(b@.subrange(start as int, end as int)),
        r is None <==> digits_val(b@.subrange(start as int, end as int)) > u64::MAX,
{
    let ghost s = b@.subrange(start as int, end as int);
    let mut acc: u64 = 0;
    let mut i: usize = start;
    proof {
        assert(s.take(0) =~= Seq::<u8>::empty());
    }
    while i < end
        invariant
            start <= i <= end <= b@.len(),
            s == b@.subrange(start as int, end as int),
            all_digits(s),
            acc == digits_val(s.take(i - start)),
        decreases end - i,
    {
        proof {
            assert(s[i - start] == b@[i as int]);
            assert(is_digit(b@[i as int]));
            lemma_digits_val_take(s, i - start);
        }
        let d: u8 = b[i] - B0;
        if acc > (u64::MAX - (d as u64)) / 10 {
            proof {
                lemma_digits_val_mono(s, i - start + 1, s.len() as int);
                assert(s.take(s.len() as int) =~= s);
            }
            return None;
        }
        acc = acc * 10 + (d as u64);
        i += 1;
    }
    proof {
        assert(s.take(s.len() as int) =~= s);
    }
    Some(acc)
}

/// The decimal numeral of `n`, as characters.
pub open spec fn dec_chars(n: nat) -> Seq<char> {
    dec_nat(n).map(|k: int, b: u8| b as char)
}

/// The index a field key addresses: its digits read base ten, when the
/// key is a nonempty run of digits.
pub open spec fn key_num(k: Seq<char>) -> Option<nat> {
    if k.len() >= 1 && (forall|i: int| 0 <= i < k.len() ==> '0' <= #[trigger] k[i] <= '9') {
        Some(digits_val(k.map(|i: int, c: char| c as u8)))
    } else {
        None
    }
}

/// The decimal numeral of `n` as a string.
pub fn u64_to_string(n: u64) -> (r: String)
    ensures
        r@ == dec_chars(n as nat),
{
    let bytes = u64_to_dec(n);
    proof {
        lemma_dec_nat(n as nat);
        assert forall|k: int| 0 <= k < bytes@.len() implies #[trigger] bytes@[k] < 128 by {
            assert(is_digit(bytes@[k]));
        }
        lemma_ascii_bytes(bytes@);
        assert(decode_utf8(bytes@) =~= dec_chars(n as nat));
    }
    match string_from_utf8(bytes) {
        Some(s) => s,
        None => {
            proof {
                assert(false);
            }
            String::new()
        },
    }
}

/// The serialized bytes of a parameter tree.
pub open spec fn ser_param(p: ParamView) -> Seq<u8>
    decreases p,
{
    match p {
        ParamView::SignedInt(i) => seq![TAG_SIGNED] + dec_int(i as int),
        ParamView::UnsignedInt(u) => seq![TAG_UNSIGNED] + dec_nat(u as nat),
        ParamView::Float(s) => seq![TAG_FLOAT] + encode_utf8(s),
        ParamView::Bool(b) => (if b {
            seq![TAG_TRUE]
        } else {
            seq![TAG_FALSE]
        }),
        ParamView::Str(s) => seq![TAG_STRING] + dec_nat(encode_utf8(s).len()) + seq![MINUS]
            + encode_utf8(s),
        ParamView::Namespaced(n) => seq![TAG_NESTED] + ser_node(n),
    }
}

/// The serialized bytes of a namespaced tree.
pub open spec fn ser_node(n: NodeView) -> Seq<u8>
    decreases n,
{
    ser_name(n.name) + seq![LBRACE] + ser_fields(n.fields) + seq![RBRACE]
}

/// The name parts joined with `:`.
pub open spec fn ser_name(name: Seq<Seq<char>>) -> Seq<u8>
    decreases name,
{
    if name.len() == 0 {
        Seq::empty()
    } else if name.len() == 1 {
        encode_utf8(name[0])
    } else {
        ser_name(name.drop_last()) + seq![COLON] + encode_utf8(name.last())
    }
}

/// The serialized entries, each as `key=value;`.
pub open spec fn ser_fields(fs: Seq<(Seq<char>, ParamView)>) -> Seq<u8>
    decreases fs,
{
    if fs.len() == 0 {
        Seq::empty()
    } else {
        ser_fields(fs.drop_last()) + encode_utf8(fs.last().0) + seq![EQUALS] + ser_param(
            fs.last().1,
        ) + seq![SEMI]
    }
}

/// Append the serialization of `p` to `out`.
fn write_param<T>(p: &Parameter<T>, out: &mut Vec<u8>)
    ensures
        final(out)@ == old(out)@ + ser_param(p@),
    decreases *p,
{
    match p {
        Parameter::SignedInt(i) => {
            out.push(TAG_SIGNED);
            let mut digits = i64_to_dec(*i);
            out.append(&mut digits);
        },
        Parameter::UnsignedInt(u) => {
            out.push(TAG_UNSIGNED);
            let mut digits = u64_to_dec(*u);
            out.append(&mut digits);
        },
        Parameter::Float(s) => {
            out.push(TAG_FLOAT);
            let mut bytes = s.as_str().as_bytes_vec();
            out.append(&mut bytes);
        },
        Parameter::Bool(b) => {
            if *b {
                out.push(TAG_TRUE);
            } else {
                out.push(TAG_FALSE);
            }
        },
        Parameter::String(s) => {
            out.push(TAG_STRING);
            let mut bytes = s.as_str().as_bytes_vec();
            let mut len_digits = u64_to_dec(bytes.len() as u64);
            out.append(&mut len_digits);
            out.push(MINUS);
            out.append(&mut bytes);
        },
        Parameter::Namespaced(n) => {
            out.push(TAG_NESTED);
            write_node(n, out);
        },
    }
    proof {
        assert(out@ =~= old(out)@ + ser_param(p@));
    }
}

/// `ser_name` of one more part appends `:` and the part (after the first).
proof fn lemma_ser_name_step(name: Seq<Seq<char>>, i: int)
    requires
        0 <= i < name.len(),
    ensures
        ser_name(name.take(i + 1)) == if i == 0 {
            encode_utf8(name[0])
        } else {
            ser_name(name.take(i)) + seq![COLON] + encode_utf8(name[i])
        },
{
    let t = name.take(i + 1);
    assert(t.drop_last() =~= name.take(i));
    assert(t.last() == name[i]);
    if i == 0 {
        assert(t.len() == 1);
        assert(t[0] == name[0]);
    }
}

/// `ser_fields` of one more entry appends `key=value;`.
proof fn lemma_ser_fields_step(fs: Seq<(Seq<char>, ParamView)>, i: int)
    requires
        0 <= i < fs.len(),
    ensures
        ser_fields(fs.take(i + 1)) == ser_fields(fs.take(i)) + encode_utf8(fs[i].0)
            + seq![EQUALS] + ser_param(fs[i].1) + seq![SEMI],
{
    let t = fs.take(i + 1);
    assert(t.drop_last() =~= fs.take(i));
    assert(t.last() == fs[i]);
}

/// Append the serialization of `n` to `out`.
fn write_node<T>(n: &Namespaced<T>, out: &mut Vec<u8>)
    ensures
        final(out)@ == old(out)@ + ser_node(n@),
    decreases *n,
{
    let ghost nm = n.name.deep_view();
    let name_len: usize = n.name.len();
    let mut i: usize = 0;
    while i < name_len
        invariant
            name_len == n.name.len(),
            nm == n.name.deep_view(),
            i <= name_len,
            out@ == old(out)@ + ser_name(nm.take(i as int)),
        decreases name_len - i,
    {
        if i > 0 {
            out.push(COLON);
        }
        let mut bytes = n.name[i].as_str().as_bytes_vec();
        out.append(&mut bytes);
        proof {
            assert(n.name@[i as int].deep_view() == nm[i as int]);
            lemma_ser_name_step(nm, i as int);
            assert(out@ =~= old(out)@ + ser_name(nm.take(i + 1)));
        }
        i += 1;
    }
    proof {
        assert(nm.take(nm.len() as int) =~= nm);
    }
    out.push(LBRACE);
    let ghost fs = n.parameters@;
    let ghost mid = out@;
    proof {
        crate::data::lemma_fields_view(n.parameters);
        crate::data::lemma_fview_len(n.parameters.entries@);
    }
    let entries_len: usize = n.parameters.entries.len();
    let mut j: usize = 0;
    while j < entries_len
        invariant
            entries_len == n.parameters.entries.len(),
            fs == n.parameters@,
            fs == crate::data::fview(n.parameters.entries@),
            fs.len() == entries_len,
            forall|k: int|
                0 <= k < entries_len ==> #[trigger] fs[k] == (
                    n.parameters.entries@[k].0@,
                    crate::data::pview(n.parameters.entries@[k].1),
                ),
            j <= entries_len,
            mid == old(out)@ + ser_name(nm) + seq![LBRACE],
            out@ == mid + ser_fields(fs.take(j as int)),
        decreases entries_len - j,
    {
        let mut key_bytes = n.parameters.entries[j].0.as_str().as_bytes_vec();
        out.append(&mut key_bytes);
        out.push(EQUALS);
        write_param(&n.parameters.entries[j].1, out);
        out.push(SEMI);
        proof {
            lemma_ser_fields_step(fs, j as int);
            assert(out@ =~= mid + ser_fields(fs.take(j + 1)));
        }
        j += 1;
    }
    out.push(RBRACE);
    proof {
        assert(fs.take(fs.len() as int) =~= fs);
        assert(out@ =~= old(out)@ + ser_node(n@));
    }
}

/// The characters of std's lossy UTF-8 decoding of the given bytes.
pub uninterp spec fn lossy_chars(b: Seq<u8>) -> Seq<char>;

/// Relies on String::from_utf8_lossy: its result depends on the bytes
/// alone, and on valid UTF-8 it is the exact decoding.
#[verifier::external_body]
pub(crate) fn string_from_utf8_lossy(v: Vec<u8>) -> (r: String)
    ensures
        r@ == lossy_chars(v@),
        valid_utf8(v@) ==> r@ == decode_utf8(v@),
{
    String::from_utf8_lossy(&v).into_owned()
}

/// The shape and payload of a `DeserializeError`.
pub enum ErrView {
    Eof,
    /// Carries the partial key read before the stray `}`, lossily decoded.
    Terminator(Seq<char>),
    BadTag(u8),
    BadUtf8,
    BadNumber,
}

/// The view of an error value.
pub open spec fn err_view(e: DeserializeError) -> ErrView {
    match e {
        DeserializeError::UnexpectedEOF => ErrView::Eof,
        DeserializeError::UnexpectedTerminator { previous } => ErrView::Terminator(previous@),
        DeserializeError::InvalidParameter(b) => ErrView::BadTag(b),
        DeserializeError::NonUTF8 => ErrView::BadUtf8,
        DeserializeError::InvalidNumber => ErrView::BadNumber,
    }
}

/// The byte classes a numeral run may draw from.
#[derive(Clone, Copy, PartialEq, Eq)]
pub enum RunKind {
    Digits,
    Int,
    Float,
}

/// Whether `b` belongs to the run class `kind`.
pub open spec fn run_byte(kind: RunKind, b: u8) -> bool {
    match kind {
        RunKind::Digits => is_digit(b),
        RunKind::Int => is_int_byte(b),
        RunKind::Float => is_float_byte(b),
    }
}

/// The first index at or after `i` whose byte leaves the class, or the
/// end of the input.
pub open spec fn run_end(kind: RunKind, b: Seq<u8>, i: int) -> int
    decreases b.len() - i,
{
    if !(0 <= i < b.len()) {
        i
    } else if run_byte(kind, b[i]) {
        run_end(kind, b, i + 1)
    } else {
        i
    }
}

/// The first index at or after `i` holding byte `x`, or `-1`.
pub open spec fn find_stop(b: Seq<u8>, i: int, x: u8) -> int
    decreases b.len() - i,
{
    if !(0 <= i < b.len()) {
        -1
    } else if b[i] == x {
        i
    } else {
        find_stop(b, i + 1, x)
    }
}

/// The first index at or after `i` holding byte `x` or byte `y`, or `-1`.
pub open spec fn find_stop2(b: Seq<u8>, i: int, x: u8, y: u8) -> int
    decreases b.len() - i,
{
    if !(0 <= i < b.len()) {
        -1
    } else if b[i] == x || b[i] == y {
        i
    } else {
        find_stop2(b, i + 1, x, y)
    }
}

/// Consume one terminator byte if any input remains.
pub open spec fn skip_term(b: Seq<u8>, i: int) -> int {
    if i < b.len() {
        i + 1
    } else {
        i
    }
}

/// Clamp `n` into `[lo, hi]`.
pub open spec fn clampi(n: int, lo: int, hi: int) -> int {
    let m = if n < lo {
        lo
    } else {
        n
    };
    if m > hi {
        hi
    } else {
        m
    }
}

/// The value of a signed numeral text, if well-formed and in range.
pub open spec fn parse_i64_text(t: Seq<u8>) -> Option<i64> {
    if t.len() >= 1 && t[0] == MINUS {
        let d = t.drop_first();
        if d.len() >= 1 && all_digits(d) && digits_val(d) <= 0x8000000000000000 {
            Some((-(digits_val(d) as int)) as i64)
        } else {
            None
        }
    } else if t.len() >= 1 && all_digits(t) && digits_val(t) <= i64::MAX {
        Some(digits_val(t) as i64)
    } else {
        None
    }
}

/// The value of an unsigned numeral text, if well-formed and in range.
pub open spec fn parse_u64_text(t: Seq<u8>) -> Option<u64> {
    if t.len() >= 1 && all_digits(t) && digits_val(t) <= u64::MAX {
        Some(digits_val(t) as u64)
    } else {
        None
    }
}

/// Split `s` at every occurrence of `sep`, from index `i` on.
pub open spec fn split_from(s: Seq<u8>, i: int, sep: u8) -> Seq<Seq<u8>>
    decreases s.len() - i,
{
    if !(0 <= i <= s.len()) {
        Seq::empty()
    } else {
        let j = find_stop(s, i, sep);
        if j == -1 {
            seq![s.subrange(i, s.len() as int)]
        } else {
            proof {
                lemma_find_stop(s, i, sep);
            }
            seq![s.subrange(i, j)] + split_from(s, j + 1, sep)
        }
    }
}

/// All pieces are valid UTF-8.
pub open spec fn pieces_valid(ps: Seq<Seq<u8>>) -> bool {
    forall|k: int| 0 <= k < ps.len() ==> valid_utf8(#[trigger] ps[k])
}

/// Insert one entry with the ordered-map semantics of `Fields::insert`.
pub open spec fn insert_entry(
    s: Seq<(Seq<char>, ParamView)>,
    k: Seq<char>,
    v: ParamView,
) -> Seq<(Seq<char>, ParamView)> {
    if crate::data::find_key(s, k) >= 0 {
        s.update(crate::data::find_key(s, k), (k, v))
    } else {
        s.push((k, v))
    }
}

/// Insert a list of entries in order.
pub open spec fn insert_all(
    base: Seq<(Seq<char>, ParamView)>,
    list: Seq<(Seq<char>, ParamView)>,
) -> Seq<(Seq<char>, ParamView)>
    decreases list.len(),
{
    if list.len() == 0 {
        base
    } else {
        insert_all(insert_entry(base, list[0].0, list[0].1), list.drop_first())
    }
}

/// Parse one parameter at index `i`: the value and the index after its
/// terminator byte.
pub open spec fn parse_param(b: Seq<u8>, i: int) -> Result<(ParamView, int), ErrView>
    decreases b.len() - i, 1int,
{
    if !(0 <= i < b.len()) {
        Err(ErrView::Eof)
    } else if b[i] == TAG_SIGNED {
        let e = run_end(RunKind::Int, b, i + 1);
        match parse_i64_text(b.subrange(i + 1, e)) {
            Some(v) => Ok((ParamView::SignedInt(v), skip_term(b, e))),
            None => Err(ErrView::BadNumber),
        }
    } else if b[i] == TAG_UNSIGNED {
        let e = run_end(RunKind::Int, b, i + 1);
        match parse_u64_text(b.subrange(i + 1, e)) {
            Some(v) => Ok((ParamView::UnsignedInt(v), skip_term(b, e))),
            None => Err(ErrView::BadNumber),
        }
    } else if b[i] == TAG_FLOAT {
        let e = run_end(RunKind::Float, b, i + 1);
        if e == i + 1 {
            Err(ErrView::BadNumber)
        } else {
            Ok((ParamView::Float(decode_utf8(b.subrange(i + 1, e))), skip_term(b, e)))
        }
    } else if b[i] == TAG_TRUE {
        Ok((ParamView::Bool(true), skip_term(b, i + 1)))
    } else if b[i] == TAG_FALSE {
        Ok((ParamView::Bool(false), skip_term(b, i + 1)))
    } else if b[i] == TAG_STRING {
        let e = run_end(RunKind::Digits, b, i + 1);
        match parse_u64_text(b.subrange(i + 1, e)) {
            Some(v) => if v > usize::MAX as u64 {
                Err(ErrView::BadNumber)
            } else {
                let start = skip_term(b, e);
                if start + v > b.len() {
                    Err(ErrView::Eof)
                } else {
                    let payload = b.subrange(start, start + v);
                    if valid_utf8(payload) {
                        Ok((ParamView::Str(decode_utf8(payload)), skip_term(b, start + v)))
                    } else {
                        Err(ErrView::BadUtf8)
                    }
                }
            },
            None => Err(ErrView::BadNumber),
        }
    } else if b[i] == TAG_NESTED {
        match parse_node(b, i + 1) {
            Ok((nv, j)) => Ok((ParamView::Namespaced(nv), skip_term(b, j))),
            Err(e) => Err(e),
        }
    } else {
        Err(ErrView::BadTag(b[i]))
    }
}

/// Parse a namespaced tree at index `i`: the tree and the index after its
/// closing brace.
pub open spec fn parse_node(b: Seq<u8>, i: int) -> Result<(NodeView, int), ErrView>
    decreases b.len() - i, 0int,
{
    if !(0 <= i <= b.len()) {
        Err(ErrView::Eof)
    } else {
        let j = find_stop(b, i, LBRACE);
        if j == -1 {
            Err(ErrView::Eof)
        } else {
            proof {
                lemma_find_stop(b, i, LBRACE);
            }
            let pieces = split_from(b.subrange(i, j), 0, COLON);
            if !pieces_valid(pieces) {
                Err(ErrView::BadUtf8)
            } else {
                let name = pieces.map(|k: int, p: Seq<u8>| decode_utf8(p));
                match parse_entries(b, j + 1) {
                    Ok((raw, m)) => Ok(
                        (NodeView { name, fields: insert_all(Seq::empty(), raw) }, m),
                    ),
                    Err(e) => Err(e),
                }
            }
        }
    }
}

/// Parse field entries up to and including the closing brace: the raw
/// entry list in input order and the index after the brace.
pub open spec fn parse_entries(b: Seq<u8>, i: int) -> Result<
    (Seq<(Seq<char>, ParamView)>, int),
    ErrView,
>
    decreases b.len() - i, 2int,
{
    if !(0 <= i < b.len()) {
        Err(ErrView::Eof)
    } else if b[i] == RBRACE {
        Ok((Seq::empty(), i + 1))
    } else {
        let j = find_stop2(b, i + 1, EQUALS, RBRACE);
        if j == -1 {
            Err(ErrView::Eof)
        } else if b[j] == RBRACE {
            Err(ErrView::Terminator(lossy_chars(b.subrange(i, j))))
        } else {
            proof {
                lemma_find_stop2(b, i + 1, EQUALS, RBRACE);
            }
            let kb = b.subrange(i, j);
            if !valid_utf8(kb) {
                Err(ErrView::BadUtf8)
            } else {
                let key = decode_utf8(kb);
                match parse_param(b, j + 1) {
                    Ok((pv, n)) => {
                        proof {
                            assert(i + 1 <= j < b.len());
                            assert(i < clampi(n, j + 2, b.len() as int) <= b.len());
                        }
                        match parse_entries(b, clampi(n, j + 2, b.len() as int)) {
                            Ok((rest, m)) => Ok((seq![(key, pv)] + rest, m)),
                            Err(e) => Err(e),
                        }
                    },
                    Err(e) => Err(e),
                }
            }
        }
    }
}

/// `find_stop` lands in `[i, b.len())` on the stop byte, with no earlier one.
pub proof fn lemma_find_stop(b: Seq<u8>, i: int, x: u8)
    requires
        0 <= i <= b.len(),
    ensures
        find_stop(b, i, x) == -1 ==> forall|k: int| i <= k < b.len() ==> b[k] != x,
        find_stop(b, i, x) != -1 ==> i <= find_stop(b, i, x) < b.len() && b[find_stop(b, i, x)]
            == x && forall|k: int| i <= k < find_stop(b, i, x) ==> b[k] != x,
    decreases b.len() - i,
{
    if i < b.len() && b[i] != x {
        lemma_find_stop(b, i + 1, x);
    }
}

/// `find_stop2` lands in `[i, b.len())` on a stop byte, with no earlier one.
pub proof fn lemma_find_stop2(b: Seq<u8>, i: int, x: u8, y: u8)
    requires
        0 <= i <= b.len(),
    ensures
        find_stop2(b, i, x, y) == -1 ==> forall|k: int| i <= k < b.len() ==> b[k] != x && b[k] != y,
        find_stop2(b, i, x, y) != -1 ==> i <= find_stop2(b, i, x, y) < b.len() && (b[find_stop2(
            b,
            i,
            x,
            y,
        )] == x || b[find_stop2(b, i, x, y)] == y) && forall|k: int|
            i <= k < find_stop2(b, i, x, y) ==> b[k] != x && b[k] != y,
    decreases b.len() - i,
{
    if i < b.len() && b[i] != x && b[i] != y {
        lemma_find_stop2(b, i + 1, x, y);
    }
}

/// `run_end` lands in `[i, b.len()]`, scanning only class bytes.
pub proof fn lemma_run_end(kind: RunKind, b: Seq<u8>, i: int)
    requires
        0 <= i <= b.len(),
    ensures
        i <= run_end(kind, b, i) <= b.len(),
        forall|k: int| i <= k < run_end(kind, b, i) ==> run_byte(kind, b[k]),
        run_end(kind, b, i) < b.len() ==> !run_byte(kind, b[run_end(kind, b, i)]),
    decreases b.len() - i,
{
    if i < b.len() && run_byte(kind, b[i]) {
        lemma_run_end(kind, b, i + 1);
    }
}

/// A successful parse always advances and never passes the end.
pub proof fn lemma_parse_param_advances(b: Seq<u8>, i: int)
    ensures
        parse_param(b, i) matches Ok((_, n)) ==> i < n <= b.len(),
    decreases b.len() - i, 1int,
{
    if 0 <= i < b.len() {
        if b[i] == TAG_SIGNED || b[i] == TAG_UNSIGNED || b[i] == TAG_FLOAT {
            let kind = if b[i] == TAG_FLOAT {
                RunKind::Float
            } else {
                RunKind::Int
            };
            lemma_run_end(kind, b, i + 1);
        } else if b[i] == TAG_STRING {
            lemma_run_end(RunKind::Digits, b, i + 1);
        } else if b[i] == TAG_NESTED {
            lemma_parse_node_advances(b, i + 1);
        }
    }
}

/// A successful parse always advances and never passes the end.
pub proof fn lemma_parse_node_advances(b: Seq<u8>, i: int)
    ensures
        parse_node(b, i) matches Ok((_, n)) ==> i < n <= b.len(),
    decreases b.len() - i, 0int,
{
    if 0 <= i <= b.len() {
        let j = find_stop(b, i, LBRACE);
        if j != -1 {
            lemma_find_stop(b, i, LBRACE);
            lemma_parse_entries_advances(b, j + 1);
        }
    }
}

/// A successful parse always advances and never passes the end.
pub proof fn lemma_parse_entries_advances(b: Seq<u8>, i: int)
    ensures
        parse_entries(b, i) matches Ok((_, n)) ==> i < n <= b.len(),
    decreases b.len() - i, 2int,
{
    if 0 <= i < b.len() && b[i] != RBRACE {
        let j = find_stop2(b, i + 1, EQUALS, RBRACE);
        if j != -1 {
            lemma_find_stop2(b, i + 1, EQUALS, RBRACE);
            lemma_parse_param_advances(b, j + 1);
            match parse_param(b, j + 1) {
                Ok(pr) => {
                    lemma_parse_entries_advances(b, clampi(pr.1, j + 2, b.len() as int));
                },
                Err(_) => {},
            }
        }
    }
}


/// Exec test for `run_byte`.
fn is_run_byte(kind: RunKind, x: u8) -> (r: bool)
    ensures
        r == run_byte(kind, x),
{
    match kind {
        RunKind::Digits => B0 <= x && x <= B9,
        RunKind::Int => (B0 <= x && x <= B9) || x == MINUS,
        RunKind::Float => (B0 <= x && x <= B9) || x == MINUS || x == DOT,
    }
}

/// If `[i, j)` is all in class and `j` stops, the run ends at `j`.
proof fn lemma_run_end_from(kind: RunKind, b: Seq<u8>, i: int, j: int)
    requires
        0 <= i <= j <= b.len(),
        forall|k: int| i <= k < j ==> run_byte(kind, #[trigger] b[k]),
        j == b.len() || !run_byte(kind, b[j]),
    ensures
        run_end(kind, b, i) == j,
    decreases j - i,
{
    if i < j {
        lemma_run_end_from(kind, b, i + 1, j);
    }
}

/// Scan the class run starting at `i`.
fn scan_run(b: &Vec<u8>, i: usize, kind: RunKind) -> (e: usize)
    requires
        i <= b@.len(),
    ensures
        e == run_end(kind, b@, i as int),
        i <= e <= b@.len(),
{
    let mut j: usize = i;
    while j < b.len() && is_run_byte(kind, b[j])
        invariant
            i <= j <= b@.len(),
            forall|k: int| i <= k < j ==> run_byte(kind, #[trigger] b@[k]),
        decreases b@.len() - j,
    {
        j += 1;
    }
    proof {
        lemma_run_end_from(kind, b@, i as int, j as int);
    }
    j
}

/// If `[i, j)` avoids `x` and `b[j] == x`, the stop is at `j`.
proof fn lemma_find_stop_from(b: Seq<u8>, i: int, j: int, x: u8)
    requires
        0 <= i <= j < b.len(),
        forall|k: int| i <= k < j ==> #[trigger] b[k] != x,
        b[j] == x,
    ensures
        find_stop(b, i, x) == j,
    decreases j - i,
{
    if i < j {
        lemma_find_stop_from(b, i + 1, j, x);
    }
}

/// If no byte from `i` on equals `x`, there is no stop.
proof fn lemma_find_stop_none(b: Seq<u8>, i: int, x: u8)
    requires
        0 <= i <= b.len(),
        forall|k: int| i <= k < b.len() ==> #[trigger] b[k] != x,
    ensures
        find_stop(b, i, x) == -1,
    decreases b.len() - i,
{
    if i < b.len() {
        lemma_find_stop_none(b, i + 1, x);
    }
}

/// Find the first occurrence of `x` at or after `i`.
pub(crate) fn find_byte(b: &Vec<u8>, i: usize, x: u8) -> (r: Option<usize>)
    requires
        i <= b@.len(),
    ensures
        r matches Some(j) ==> j == find_stop(b@, i as int, x) && i <= j < b@.len(),
        r is None ==> find_stop(b@, i as int, x) == -1,
{
    let mut j: usize = i;
    while j < b.len()
        invariant
            i <= j <= b@.len(),
            forall|k: int| i <= k < j ==> #[trigger] b@[k] != x,
        decreases b@.len() - j,
    {
        if b[j] == x {
            proof {
                lemma_find_stop_from(b@, i as int, j as int, x);
            }
            return Some(j);
        }
        j += 1;
    }
    proof {
        lemma_find_stop_none(b@, i as int, x);
    }
    None
}

/// The two-byte analogues of the `find_stop` lemmas.
proof fn lemma_find_stop2_from(b: Seq<u8>, i: int, j: int, x: u8, y: u8)
    requires
        0 <= i <= j < b.len(),
        forall|k: int| i <= k < j ==> #[trigger] b[k] != x && b[k] != y,
        b[j] == x || b[j] == y,
    ensures
        find_stop2(b, i, x, y) == j,
    decreases j - i,
{
    if i < j {
        lemma_find_stop2_from(b, i + 1, j, x, y);
    }
}

proof fn lemma_find_stop2_none(b: Seq<u8>, i: int, x: u8, y: u8)
    requires
        0 <= i <= b.len(),
        forall|k: int| i <= k < b.len() ==> #[trigger] b[k] != x && b[k] != y,
    ensures
        find_stop2(b, i, x, y) == -1,
    decreases b.len() - i,
{
    if i < b.len() {
        lemma_find_stop2_none(b, i + 1, x, y);
    }
}

/// Find the first occurrence of `x` or `y` at or after `i`.
fn find_byte2(b: &Vec<u8>, i: usize, x: u8, y: u8) -> (r: Option<usize>)
    requires
        i <= b@.len(),
    ensures
        r matches Some(j) ==> j == find_stop2(b@, i as int, x, y) && i <= j < b@.len(),
        r is None ==> find_stop2(b@, i as int, x, y) == -1,
{
    let mut j: usize = i;
    while j < b.len()
        invariant
            i <= j <= b@.len(),
            forall|k: int| i <= k < j ==> #[trigger] b@[k] != x && b@[k] != y,
        decreases b@.len() - j,
    {
        if b[j] == x || b[j] == y {
            proof {
                lemma_find_stop2_from(b@, i as int, j as int, x, y);
            }
            return Some(j);
        }
        j += 1;
    }
    proof {
        lemma_find_stop2_none(b@, i as int, x, y);
    }
    None
}

/// Copy `b[i..j]` into a fresh vector.
pub(crate) fn subvec(b: &Vec<u8>, i: usize, j: usize) -> (r: Vec<u8>)
    requires
        i <= j <= b@.len(),
    ensures
        r@ == b@.subrange(i as int, j as int),
{
    let mut out: Vec<u8> = Vec::new();
    let mut k: usize = i;
    while k < j
        invariant
            i <= k <= j <= b@.len(),
            out@ =~= b@.subrange(i as int, k as int),
        decreases j - k,
    {
        out.push(b[k]);
        proof {
            assert(out@ =~= b@.subrange(i as int, k + 1));
        }
        k += 1;
    }
    out
}

/// Exec form of `skip_term`.
fn skip_one(b: &Vec<u8>, e: usize) -> (r: usize)
    requires
        e <= b@.len(),
    ensures
        r == skip_term(b@, e as int),
        e <= r <= b@.len(),
{
    if e < b.len() {
        e + 1
    } else {
        e
    }
}

/// Relies on String::from_utf8: it succeeds exactly on valid UTF-8 input
/// and decodes the bytes to their character sequence.
#[verifier::external_body]
pub(crate) fn string_from_utf8(v: Vec<u8>) -> (r: Option<String>)
    ensures
        r is Some <==> valid_utf8(v@),
        r matches Some(s) ==> s@ == decode_utf8(v@),
{
    String::from_utf8(v).ok()
}

/// ASCII bytes are valid UTF-8 and decode to themselves as characters.
proof fn lemma_ascii_bytes(t: Seq<u8>)
    requires
        forall|k: int| 0 <= k < t.len() ==> #[trigger] t[k] < 128,
    ensures
        valid_utf8(t),
        decode_utf8(t) == t.map(|k: int, x: u8| x as char),
{
    broadcast use vstd::utf8::char_u32_cast;

    let chars = t.map(|k: int, x: u8| x as char);
    assert forall|k: int| 0 <= k < chars.len() implies (#[trigger] chars[k] as u32) <= 0x7f by {
        assert(t[k] < 128);
        assert(chars[k] == t[k] as char);
    }
    assert(vstd::utf8::is_ascii_chars(chars));
    vstd::utf8::is_ascii_chars_encode_utf8(chars);
    assert(encode_utf8(chars) =~= t);
    vstd::utf8::encode_utf8_valid_utf8(chars);
    vstd::utf8::encode_utf8_decode_utf8(chars);
}

/// Check that `b[lo..hi]` is all digits.
fn check_all_digits(b: &Vec<u8>, lo: usize, hi: usize) -> (r: bool)
    requires
        lo <= hi <= b@.len(),
    ensures
        r == all_digits(b@.subrange(lo as int, hi as int)),
{
    let mut k: usize = lo;
    while k < hi
        invariant
            lo <= k <= hi <= b@.len(),
            forall|t: int| lo <= t < k ==> is_digit(#[trigger] b@[t]),
        decreases hi - k,
    {
        if b[k] < B0 || b[k] > B9 {
            proof {
                assert(b@.subrange(lo as int, hi as int)[k - lo] == b@[k as int]);
            }
            return false;
        }
        k += 1;
    }
    proof {
        assert forall|t: int| 0 <= t < hi - lo implies is_digit(
            #[trigger] b@.subrange(lo as int, hi as int)[t],
        ) by {
            assert(b@.subrange(lo as int, hi as int)[t] == b@[t + lo]);
        }
    }
    true
}

/// Read `b[lo..hi]` as a signed numeral; mirrors `parse_i64_text`.
fn parse_i64_range(b: &Vec<u8>, lo: usize, hi: usize) -> (r: Option<i64>)
    requires
        lo <= hi <= b@.len(),
    ensures
        r == parse_i64_text(b@.subrange(lo as int, hi as int)),
{
    let ghost t = b@.subrange(lo as int, hi as int);
    if lo == hi {
        return None;
    }
    if b[lo] == MINUS {
        proof {
            assert(t[0] == MINUS);
            assert(t.drop_first() =~= b@.subrange(lo + 1, hi as int));
        }
        if lo + 1 == hi {
            return None;
        }
        if !check_all_digits(b, lo + 1, hi) {
            return None;
        }
        match parse_digits_u64(b, lo + 1, hi) {
            None => {
                proof {
                    assert(digits_val(t.drop_first()) > u64::MAX >= 0x8000000000000000);
                }
                None
            },
            Some(v) => {
                if v > 0x8000000000000000u64 {
                    None
                } else {
                    let m: i64 = (-(v as i128)) as i64;
                    proof {
                        assert(m as int == -(digits_val(t.drop_first()) as int));
                    }
                    Some(m)
                }
            },
        }
    } else {
        proof {
            assert(t.len() >= 1 && t[0] != MINUS);
        }
        if !check_all_digits(b, lo, hi) {
            return None;
        }
        match parse_digits_u64(b, lo, hi) {
            None => {
                proof {
                    assert(digits_val(t) > u64::MAX >= i64::MAX);
                }
                None
            },
            Some(v) => {
                if v > i64::MAX as u64 {
                    None
                } else {
                    Some(v as i64)
                }
            },
        }
    }
}

/// Read `b[lo..hi]` as an unsigned numeral; mirrors `parse_u64_text`.
fn parse_u64_range(b: &Vec<u8>, lo: usize, hi: usize) -> (r: Option<u64>)
    requires
        lo <= hi <= b@.len(),
    ensures
        r == parse_u64_text(b@.subrange(lo as int, hi as int)),
{
    if lo == hi {
        return None;
    }
    if !check_all_digits(b, lo, hi) {
        return None;
    }
    parse_digits_u64(b, lo, hi)
}


/// Parse one parameter at index `i`, mirroring `parse_param`.
pub(crate) fn deser_param<T>(b: &Vec<u8>, i: usize) -> (r: Result<
    (Parameter<T>, usize),
    DeserializeError,
>)
    requires
        i <= b@.len(),
    ensures
        (match parse_param(b@, i as int) {
            Ok(pr) => r matches Ok(p) && p.0@ == pr.0 && p.1 == pr.1 && p.1 <= b@.len(),
            Err(ev) => r matches Err(e) && err_view(e) == ev,
        }),
    decreases b@.len() - i, 1int,
{
    if i >= b.len() {
        return Err(DeserializeError::UnexpectedEOF);
    }
    let tag = b[i];
    if tag == TAG_SIGNED {
        let e = scan_run(b, i + 1, RunKind::Int);
        match parse_i64_range(b, i + 1, e) {
            Some(v) => Ok((Parameter::SignedInt(v), skip_one(b, e))),
            None => Err(DeserializeError::InvalidNumber),
        }
    } else if tag == TAG_UNSIGNED {
        let e = scan_run(b, i + 1, RunKind::Int);
        match parse_u64_range(b, i + 1, e) {
            Some(v) => Ok((Parameter::UnsignedInt(v), skip_one(b, e))),
            None => Err(DeserializeError::InvalidNumber),
        }
    } else if tag == TAG_FLOAT {
        let e = scan_run(b, i + 1, RunKind::Float);
        if e == i + 1 {
            return Err(DeserializeError::InvalidNumber);
        }
        let text = subvec(b, i + 1, e);
        proof {
            lemma_run_end(RunKind::Float, b@, i + 1);
            assert forall|k: int| 0 <= k < text@.len() implies #[trigger] text@[k] < 128 by {
                assert(text@[k] == b@[i + 1 + k]);
                assert(run_byte(RunKind::Float, b@[i + 1 + k]));
            }
            lemma_ascii_bytes(text@);
        }
        match string_from_utf8(text) {
            Some(s) => Ok((Parameter::Float(s), skip_one(b, e))),
            None => Err(DeserializeError::NonUTF8),
        }
    } else if tag == TAG_TRUE {
        Ok((Parameter::Bool(true), skip_one(b, i + 1)))
    } else if tag == TAG_FALSE {
        Ok((Parameter::Bool(false), skip_one(b, i + 1)))
    } else if tag == TAG_STRING {
        let e = scan_run(b, i + 1, RunKind::Digits);
        match parse_u64_range(b, i + 1, e) {
            Some(v) => {
                if v > usize::MAX as u64 {
                    return Err(DeserializeError::InvalidNumber);
                }
                let len: usize = v as usize;
                let start = skip_one(b, e);
                if len > b.len() - start {
                    return Err(DeserializeError::UnexpectedEOF);
                }
                let payload = subvec(b, start, start + len);
                match string_from_utf8(payload) {
                    Some(s) => Ok((Parameter::String(s), skip_one(b, start + len))),
                    None => Err(DeserializeError::NonUTF8),
                }
            },
            None => Err(DeserializeError::InvalidNumber),
        }
    } else if tag == TAG_NESTED {
        match deser_node(b, i + 1) {
            Ok((n, j)) => Ok((Parameter::Namespaced(n), skip_one(b, j))),
            Err(e) => Err(e),
        }
    } else {
        Err(DeserializeError::InvalidParameter(tag))
    }
}

/// Parse a namespaced tree at index `i`, mirroring `parse_node`.
pub(crate) fn deser_node<T>(b: &Vec<u8>, i: usize) -> (r: Result<
    (Namespaced<T>, usize),
    DeserializeError,
>)
    requires
        i <= b@.len(),
    ensures
        (match parse_node(b@, i as int) {
            Ok(pr) => r matches Ok(p) && p.0@ == pr.0 && p.1 == pr.1 && p.1 <= b@.len(),
            Err(ev) => r matches Err(e) && err_view(e) == ev,
        }),
    decreases b@.len() - i, 0int,
{
    let j = match find_byte(b, i, LBRACE) {
        None => {
            return Err(DeserializeError::UnexpectedEOF);
        },
        Some(j) => j,
    };
    let name_bytes = subvec(b, i, j);
    let ghost nb = name_bytes@;
    let ghost spec_pieces = split_from(nb, 0, COLON);
    let mut name: Vec<String> = Vec::new();
    let mut pos: usize = 0;
    let ghost mut done: Seq<Seq<u8>> = Seq::empty();
    let mut finished = false;
    while !finished
        invariant
            i <= b@.len(),
            i as int <= j < b@.len(),
            j == find_stop(b@, i as int, LBRACE),
            nb == name_bytes@,
            nb == b@.subrange(i as int, j as int),
            nb.len() <= b@.len(),
            pos <= nb.len(),
            spec_pieces == split_from(nb, 0, COLON),
            !finished ==> spec_pieces =~= done + split_from(nb, pos as int, COLON),
            finished ==> spec_pieces =~= done,
            name@.len() == done.len(),
            forall|t: int|
                0 <= t < done.len() ==> valid_utf8(#[trigger] done[t]) && name@[t]@ == decode_utf8(
                    done[t],
                ),
        decreases nb.len() - pos + (if finished { 0int } else { 1int }),
    {
        match find_byte(&name_bytes, pos, COLON) {
            None => {
                let piece = subvec(&name_bytes, pos, name_bytes.len());
                match string_from_utf8(piece) {
                    None => {
                        proof {
                            assert(split_from(nb, pos as int, COLON) == seq![
                                nb.subrange(pos as int, nb.len() as int),
                            ]);
                            assert(spec_pieces[done.len() as int] == nb.subrange(
                                pos as int,
                                nb.len() as int,
                            ));
                            assert(!pieces_valid(spec_pieces));
                        }
                        return Err(DeserializeError::NonUTF8);
                    },
                    Some(s) => {
                        name.push(s);
                        proof {
                            assert(split_from(nb, pos as int, COLON) == seq![
                                nb.subrange(pos as int, nb.len() as int),
                            ]);
                            done = done.push(nb.subrange(pos as int, nb.len() as int));
                        }
                        finished = true;
                    },
                }
            },
            Some(q) => {
                let piece = subvec(&name_bytes, pos, q);
                match string_from_utf8(piece) {
                    None => {
                        proof {
                            lemma_find_stop(nb, pos as int, COLON);
                            assert(split_from(nb, pos as int, COLON) == seq![
                                nb.subrange(pos as int, q as int),
                            ] + split_from(nb, q + 1, COLON));
                            assert(spec_pieces[done.len() as int] == nb.subrange(
                                pos as int,
                                q as int,
                            ));
                            assert(!pieces_valid(spec_pieces));
                        }
                        return Err(DeserializeError::NonUTF8);
                    },
                    Some(s) => {
                        name.push(s);
                        proof {
                            lemma_find_stop(nb, pos as int, COLON);
                            assert(split_from(nb, pos as int, COLON) == seq![
                                nb.subrange(pos as int, q as int),
                            ] + split_from(nb, q + 1, COLON));
                            done = done.push(nb.subrange(pos as int, q as int));
                        }
                        pos = q + 1;
                    },
                }
            },
        }
    }
    proof {
        assert(pieces_valid(spec_pieces)) by {
            assert forall|t: int| 0 <= t < spec_pieces.len() implies valid_utf8(
                #[trigger] spec_pieces[t],
            ) by {
                assert(spec_pieces[t] == done[t]);
            }
        }
        assert(name.deep_view() =~= spec_pieces.map(|k: int, p: Seq<u8>| decode_utf8(p))) by {
            assert forall|t: int| 0 <= t < done.len() implies name.deep_view()[t]
                == spec_pieces.map(|k: int, p: Seq<u8>| decode_utf8(p))[t] by {
                assert(name.deep_view()[t] == name@[t]@);
            }
        }
    }
    let blen: usize = b.len();
    proof {
        assert(j < blen);
    }
    let mut fields: Fields<T> = Fields::new();
    match deser_entries(b, j + 1, &mut fields) {
        Ok(m) => {
            let node = Namespaced::new(name, fields);
            Ok((node, m))
        },
        Err(e) => Err(e),
    }
}

/// Parse entries up to the closing brace into `fields`, mirroring
/// `parse_entries`.
pub(crate) fn deser_entries<T>(b: &Vec<u8>, i: usize, fields: &mut Fields<T>) -> (r: Result<
    usize,
    DeserializeError,
>)
    requires
        i <= b@.len(),
    ensures
        (match parse_entries(b@, i as int) {
            Ok(pr) => r matches Ok(m) && m == pr.1 && m <= b@.len() && final(fields)@ == insert_all(
                old(fields)@,
                pr.0,
            ),
            Err(ev) => r matches Err(e) && err_view(e) == ev,
        }),
    decreases b@.len() - i, 2int,
{
    if i >= b.len() {
        return Err(DeserializeError::UnexpectedEOF);
    }
    if b[i] == RBRACE {
        return Ok(i + 1);
    }
    let j = match find_byte2(b, i + 1, EQUALS, RBRACE) {
        None => {
            return Err(DeserializeError::UnexpectedEOF);
        },
        Some(j) => j,
    };
    if b[j] == RBRACE {
        let prev = string_from_utf8_lossy(subvec(b, i, j));
        return Err(DeserializeError::UnexpectedTerminator { previous: prev });
    }
    let kb = subvec(b, i, j);
    let key = match string_from_utf8(kb) {
        None => {
            return Err(DeserializeError::NonUTF8);
        },
        Some(s) => s,
    };
    let ghost kview = key@;
    match deser_param::<T>(b, j + 1) {
        Err(e) => Err(e),
        Ok((p, n)) => {
            let ghost pv = p@;
            proof {
                lemma_parse_param_advances(b@, j + 1);
                assert(clampi(n as int, j + 2, b@.len() as int) == n);
            }
            fields.insert(key, p);
            match deser_entries(b, n, fields) {
                Err(e) => Err(e),
                Ok(m) => {
                    proof {
                        let raw = match parse_entries(b@, i as int) {
                            Ok(pr) => pr.0,
                            Err(_) => Seq::empty(),
                        };
                        let rest = match parse_entries(b@, n as int) {
                            Ok(pr) => pr.0,
                            Err(_) => Seq::empty(),
                        };
                        assert(raw == seq![(kview, pv)] + rest);
                        assert(raw[0] == (kview, pv));
                        assert(raw.drop_first() =~= rest);
                        assert(insert_all(old(fields)@, raw) == insert_all(
                            insert_entry(old(fields)@, kview, pv),
                            rest,
                        ));
                        crate::data::lemma_find_key(old(fields)@, kview);
                    }
                    Ok(m)
                },
            }
        },
    }
}

impl<T> Parameter<T> {
    /// Parse a parameter from the start of `b`; returns the tree and the
    /// number of bytes consumed.
    pub fn deserialize(b: &Vec<u8>) -> (r: Result<(Parameter<T>, usize), DeserializeError>)
        ensures
            (match parse_param(b@, 0) {
                Ok(pr) => r matches Ok(p) && p.0@ == pr.0 && p.1 == pr.1,
                Err(ev) => r matches Err(e) && err_view(e) == ev,
            }),
    {
        deser_param(b, 0)
    }
}

impl<T> Namespaced<T> {
    /// Parse a namespaced tree from the start of `b`; returns the tree and
    /// the number of bytes consumed.
    pub fn deserialize(b: &Vec<u8>) -> (r: Result<(Namespaced<T>, usize), DeserializeError>)
        ensures
            (match parse_node(b@, 0) {
                Ok(pr) => r matches Ok(p) && p.0@ == pr.0 && p.1 == pr.1,
                Err(ev) => r matches Err(e) && err_view(e) == ev,
            }),
    {
        deser_node(b, 0)
    }
}


/// A character that serializes as a single ASCII byte.
pub open spec fn ascii_char(c: char) -> bool {
    '\0' <= c <= '\u{7f}'
}

/// A well-formed float text: a nonempty run of digits, `-` and `.`.
pub open spec fn wf_float_text(s: Seq<char>) -> bool {
    s.len() >= 1 && forall|k: int|
        0 <= k < s.len() ==> ascii_char(#[trigger] s[k]) && is_float_byte(s[k] as u8)
}

/// A well-formed field key: nonempty ASCII without `=` or `}`.
pub open spec fn wf_key(k: Seq<char>) -> bool {
    k.len() >= 1 && forall|t: int|
        0 <= t < k.len() ==> ascii_char(#[trigger] k[t]) && k[t] != '=' && k[t] != '}'
}

/// A well-formed name part: ASCII without `:` or `{`.
pub open spec fn wf_name_part(p: Seq<char>) -> bool {
    forall|t: int| 0 <= t < p.len() ==> ascii_char(#[trigger] p[t]) && p[t] != ':' && p[t] != '{'
}

/// A tree whose serialization parses back to itself.
pub open spec fn wf_param(p: ParamView) -> bool
    decreases p,
{
    match p {
        ParamView::SignedInt(_) => true,
        ParamView::UnsignedInt(_) => true,
        ParamView::Float(s) => wf_float_text(s),
        ParamView::Bool(_) => true,
        ParamView::Str(s) => encode_utf8(s).len() <= usize::MAX,
        ParamView::Namespaced(n) => wf_node(n),
    }
}

/// A tree whose serialization parses back to itself.
pub open spec fn wf_node(n: NodeView) -> bool
    decreases n,
{
    &&& n.name.len() >= 1
    &&& (forall|t: int| 0 <= t < n.name.len() ==> wf_name_part(#[trigger] n.name[t]))
    &&& crate::data::keys_unique(n.fields)
    &&& wf_entries(n.fields)
}

/// Every entry has a well-formed key and value.
pub open spec fn wf_entries(fs: Seq<(Seq<char>, ParamView)>) -> bool
    decreases fs,
{
    if fs.len() == 0 {
        true
    } else {
        wf_entries(fs.drop_last()) && wf_key(fs.last().0) && wf_param(fs.last().1)
    }
}

/// `wf_entries` holds entrywise.
proof fn lemma_wf_entries_index(fs: Seq<(Seq<char>, ParamView)>, k: int)
    requires
        wf_entries(fs),
        0 <= k < fs.len(),
    ensures
        wf_key(fs[k].0),
        wf_param(fs[k].1),
    decreases fs.len(),
{
    if k < fs.len() - 1 {
        lemma_wf_entries_index(fs.drop_last(), k);
    }
}

/// `wf_entries` restricted to a suffix.
proof fn lemma_wf_entries_drop_first(fs: Seq<(Seq<char>, ParamView)>)
    requires
        wf_entries(fs),
        fs.len() >= 1,
    ensures
        wf_entries(fs.drop_first()),
    decreases fs.len(),
{
    if fs.len() > 1 {
        lemma_wf_entries_drop_first(fs.drop_last());
        assert(fs.drop_last().drop_first() =~= fs.drop_first().drop_last());
        assert(fs.drop_first().last() == fs.last());
    }
}

/// An ASCII character sequence encodes byte for byte.
proof fn lemma_ascii_encode(s: Seq<char>)
    requires
        forall|k: int| 0 <= k < s.len() ==> ascii_char(#[trigger] s[k]),
    ensures
        encode_utf8(s).len() == s.len(),
        forall|k: int| 0 <= k < s.len() ==> #[trigger] encode_utf8(s)[k] == s[k] as u8,
        valid_utf8(encode_utf8(s)),
        decode_utf8(encode_utf8(s)) == s,
{
    assert(vstd::utf8::is_ascii_chars(s));
    vstd::utf8::is_ascii_chars_encode_utf8(s);
    vstd::utf8::encode_utf8_valid_utf8(s);
    vstd::utf8::encode_utf8_decode_utf8(s);
}

/// Two ASCII characters with the same byte are the same character.
proof fn lemma_ascii_byte_char(c: char, d: char)
    requires
        ascii_char(c),
        ascii_char(d),
        c as u8 == d as u8,
    ensures
        c == d,
{
    broadcast use vstd::utf8::char_u32_cast;

    let cu = c as u32;
    let du = d as u32;
    assert(cu < 128 && du < 128);
    assert(c as u8 == cu as u8);
    assert(d as u8 == du as u8);
    assert((cu < 128 && du < 128 && cu as u8 == du as u8) ==> cu == du) by (bit_vector);
    assert((cu as char) == c);
    assert((du as char) == d);
}

/// `ser_name` decomposed from the front.
proof fn lemma_ser_name_front(nm: Seq<Seq<char>>)
    requires
        nm.len() >= 2,
    ensures
        ser_name(nm) == encode_utf8(nm[0]) + seq![COLON] + ser_name(nm.drop_first()),
    decreases nm.len(),
{
    if nm.len() == 2 {
        assert(nm.drop_last() =~= seq![nm[0]]);
        assert(nm.drop_first() =~= seq![nm[1]]);
        assert(ser_name(seq![nm[0]]) == encode_utf8(nm[0]));
        assert(ser_name(seq![nm[1]]) == encode_utf8(nm[1]));
        assert(ser_name(nm) =~= encode_utf8(nm[0]) + seq![COLON] + ser_name(nm.drop_first()));
    } else {
        lemma_ser_name_front(nm.drop_last());
        assert(nm.drop_last()[0] == nm[0]);
        assert(nm.drop_last().drop_first() =~= nm.drop_first().drop_last());
        assert(nm.drop_first().last() == nm.last());
        assert(nm.drop_first().len() >= 2);
        assert(ser_name(nm) == ser_name(nm.drop_last()) + seq![COLON] + encode_utf8(nm.last()));
        assert(ser_name(nm.drop_first()) == ser_name(nm.drop_first().drop_last()) + seq![COLON]
            + encode_utf8(nm.drop_first().last()));
        assert(ser_name(nm) =~= encode_utf8(nm[0]) + seq![COLON] + ser_name(nm.drop_first()));
    }
}

/// `ser_fields` decomposed from the front.
proof fn lemma_ser_fields_front(fs: Seq<(Seq<char>, ParamView)>)
    requires
        fs.len() >= 1,
    ensures
        ser_fields(fs) == encode_utf8(fs[0].0) + seq![EQUALS] + ser_param(fs[0].1) + seq![SEMI]
            + ser_fields(fs.drop_first()),
    decreases fs.len(),
{
    if fs.len() == 1 {
        assert(fs.drop_last() =~= Seq::<(Seq<char>, ParamView)>::empty());
        assert(fs.drop_first() =~= Seq::<(Seq<char>, ParamView)>::empty());
        assert(fs.last() == fs[0]);
        assert(ser_fields(fs) =~= encode_utf8(fs[0].0) + seq![EQUALS] + ser_param(fs[0].1)
            + seq![SEMI] + ser_fields(fs.drop_first()));
    } else {
        lemma_ser_fields_front(fs.drop_last());
        assert(fs.drop_last()[0] == fs[0]);
        assert(fs.drop_last().drop_first() =~= fs.drop_first().drop_last());
        assert(fs.drop_first().last() == fs.last());
        assert(ser_fields(fs) =~= encode_utf8(fs[0].0) + seq![EQUALS] + ser_param(fs[0].1)
            + seq![SEMI] + ser_fields(fs.drop_first()));
    }
}

/// Inserting entries with fresh unique keys appends them in order.
proof fn lemma_insert_all_unique(
    base: Seq<(Seq<char>, ParamView)>,
    list: Seq<(Seq<char>, ParamView)>,
)
    requires
        crate::data::keys_unique(base + list),
    ensures
        insert_all(base, list) == base + list,
    decreases list.len(),
{
    if list.len() == 0 {
        assert(base + list =~= base);
    } else {
        let k0 = list[0].0;
        crate::data::lemma_find_key(base, k0);
        if crate::data::find_key(base, k0) >= 0 {
            let t = crate::data::find_key(base, k0);
            assert((base + list)[t] == base[t]);
            assert((base + list)[base.len() as int] == list[0]);
            assert(false);
        }
        assert(insert_entry(base, list[0].0, list[0].1) == base.push(list[0]));
        assert(base.push(list[0]) + list.drop_first() =~= base + list);
        lemma_insert_all_unique(base.push(list[0]), list.drop_first());
        assert(insert_all(base, list) == insert_all(base.push(list[0]), list.drop_first()));
    }
}

/// Whether the byte after a serialized value cannot be mistaken for more
/// of the value.
pub open spec fn stop_ok(p: ParamView, b: Seq<u8>, e: int) -> bool {
    e == b.len() || match p {
        ParamView::SignedInt(_) => !is_int_byte(b[e]),
        ParamView::UnsignedInt(_) => !is_int_byte(b[e]),
        ParamView::Float(_) => !is_float_byte(b[e]),
        _ => true,
    }
}

/// Parsing a serialized signed numeral gives the value back.
proof fn lemma_parse_dec_int(v: i64)
    ensures
        parse_i64_text(dec_int(v as int)) == Some(v),
{
    let t = dec_int(v as int);
    if v >= 0 {
        lemma_dec_nat(v as nat);
        assert(t[0] != MINUS);
    } else {
        lemma_dec_nat((-(v as int)) as nat);
        let d = t.drop_first();
        assert(d =~= dec_nat((-(v as int)) as nat));
        assert(t[0] == MINUS);
        assert(digits_val(d) == (-(v as int)) as nat);
        assert(digits_val(d) <= 0x8000000000000000);
        assert((-(digits_val(d) as int)) as i64 == v);
    }
}

/// Parsing a serialized unsigned numeral gives the value back.
proof fn lemma_parse_dec_nat(v: u64)
    ensures
        parse_u64_text(dec_nat(v as nat)) == Some(v),
{
    lemma_dec_nat(v as nat);
}

/// A window of `b` that is known to hold `sp` can be cut anywhere.
proof fn lemma_shift_subrange(b: Seq<u8>, i: int, lo: int, hi: int, sp: Seq<u8>)
    requires
        0 <= i,
        i + sp.len() <= b.len(),
        b.subrange(i, i + sp.len() as int) == sp,
        i <= lo <= hi <= i + sp.len(),
    ensures
        b.subrange(lo, hi) == sp.subrange(lo - i, hi - i),
{
    assert forall|k: int| 0 <= k < hi - lo implies b.subrange(lo, hi)[k] == sp.subrange(
        lo - i,
        hi - i,
    )[k] by {
        assert(b.subrange(i, i + sp.len() as int)[lo - i + k] == b[i + (lo - i + k)]);
        assert(i + (lo - i + k) == lo + k);
    }
    assert(b.subrange(lo, hi) =~= sp.subrange(lo - i, hi - i));
}

/// Round trip of one parameter inside a larger buffer.
#[verifier::rlimit(60)]
proof fn lemma_rt_param(p: ParamView, b: Seq<u8>, i: int)
    requires
        wf_param(p),
        0 <= i,
        i + ser_param(p).len() <= b.len(),
        b.subrange(i, i + ser_param(p).len() as int) == ser_param(p),
        stop_ok(p, b, i + ser_param(p).len() as int),
    ensures
        parse_param(b, i) == Ok::<(ParamView, int), ErrView>(
            (p, skip_term(b, i + ser_param(p).len() as int)),
        ),
    decreases p,
{
    let sp = ser_param(p);
    let e0 = i + sp.len() as int;
    assert forall|k: int| 0 <= k < sp.len() implies #[trigger] b[i + k] == sp[k] by {
        assert(b.subrange(i, e0)[k] == b[i + k]);
    }
    assert(b[i] == sp[0]) by {
        assert(b.subrange(i, e0)[0] == b[i + 0]);
    }
    match p {
        ParamView::SignedInt(v) => {
            lemma_dec_nat(if v >= 0 { v as nat } else { (-(v as int)) as nat });
            assert forall|k: int| i + 1 <= k < e0 implies run_byte(RunKind::Int, #[trigger] b[k]) by {
                assert(b[k] == sp[k - i]);
                assert(sp[k - i] == dec_int(v as int)[k - i - 1]);
            }
            lemma_run_end_from(RunKind::Int, b, i + 1, e0);
            lemma_shift_subrange(b, i, i + 1, e0, sp);
            assert(sp.subrange(1, sp.len() as int) =~= dec_int(v as int));
            lemma_parse_dec_int(v);
        },
        ParamView::UnsignedInt(v) => {
            lemma_dec_nat(v as nat);
            assert forall|k: int| i + 1 <= k < e0 implies run_byte(RunKind::Int, #[trigger] b[k]) by {
                assert(b[k] == sp[k - i]);
                assert(sp[k - i] == dec_nat(v as nat)[k - i - 1]);
            }
            lemma_run_end_from(RunKind::Int, b, i + 1, e0);
            lemma_shift_subrange(b, i, i + 1, e0, sp);
            assert(sp.subrange(1, sp.len() as int) =~= dec_nat(v as nat));
            lemma_parse_dec_nat(v);
        },
        ParamView::Float(s) => {
            lemma_ascii_encode(s);
            assert forall|k: int| i + 1 <= k < e0 implies run_byte(
                RunKind::Float,
                #[trigger] b[k],
            ) by {
                assert(b[k] == sp[k - i]);
                assert(sp[k - i] == encode_utf8(s)[k - i - 1]);
                assert(encode_utf8(s)[k - i - 1] == s[k - i - 1] as u8);
            }
            lemma_run_end_from(RunKind::Float, b, i + 1, e0);
            lemma_shift_subrange(b, i, i + 1, e0, sp);
            assert(sp.subrange(1, sp.len() as int) =~= encode_utf8(s));
            assert(e0 > i + 1);
        },
        ParamView::Bool(v) => {},
        ParamView::Str(s) => {
            let enc = encode_utf8(s);
            let ld = dec_nat(enc.len());
            lemma_dec_nat(enc.len());
            let e1 = i + 1 + ld.len() as int;
            assert forall|k: int| i + 1 <= k < e1 implies run_byte(
                RunKind::Digits,
                #[trigger] b[k],
            ) by {
                assert(b[k] == sp[k - i]);
                assert(sp[k - i] == ld[k - i - 1]);
            }
            assert(b[e1] == sp[e1 - i]);
            assert(sp[e1 - i] == MINUS);
            lemma_run_end_from(RunKind::Digits, b, i + 1, e1);
            lemma_shift_subrange(b, i, i + 1, e1, sp);
            assert(sp.subrange(1, (e1 - i) as int) =~= ld);
            assert(parse_u64_text(ld) == Some(digits_val(ld) as u64));
            assert(skip_term(b, e1) == e1 + 1);
            lemma_shift_subrange(b, i, e1 + 1, e1 + 1 + enc.len() as int, sp);
            assert(sp.subrange(e1 + 1 - i, e1 + 1 - i + enc.len() as int) =~= enc);
            vstd::utf8::encode_utf8_valid_utf8(s);
            vstd::utf8::encode_utf8_decode_utf8(s);
        },
        ParamView::Namespaced(n) => {
            let sn = ser_node(n);
            lemma_shift_subrange(b, i, i + 1, i + 1 + sn.len() as int, sp);
            assert(sp.subrange(1, sp.len() as int) =~= sn);
            lemma_rt_node(n, b, i + 1);
        },
    }
}

/// Round trip of a namespaced tree inside a larger buffer.
proof fn lemma_rt_node(n: NodeView, b: Seq<u8>, i: int)
    requires
        wf_node(n),
        0 <= i,
        i + ser_node(n).len() <= b.len(),
        b.subrange(i, i + ser_node(n).len() as int) == ser_node(n),
    ensures
        parse_node(b, i) == Ok::<(NodeView, int), ErrView>((n, i + ser_node(n).len() as int)),
    decreases n,
{
    let sn = ser_node(n);
    let nm = n.name;
    let snm = ser_name(nm);
    let sf = ser_fields(n.fields);
    assert forall|k: int| 0 <= k < sn.len() implies #[trigger] b[i + k] == sn[k] by {
        assert(b.subrange(i, i + sn.len() as int)[k] == b[i + k]);
    }
    lemma_ser_name_parts(nm);
    let jj = i + snm.len() as int;
    assert forall|k: int| i <= k < jj implies #[trigger] b[k] != LBRACE by {
        assert(b[k] == sn[k - i]);
        assert(sn[k - i] == snm[k - i]);
    }
    assert(b[jj] == sn[snm.len() as int]);
    assert(b[jj] == LBRACE);
    lemma_find_stop_from(b, i, jj, LBRACE);
    lemma_shift_subrange(b, i, i, jj, sn);
    let nb = b.subrange(i, jj);
    assert(nb =~= snm);
    assert(snm.subrange(0, snm.len() as int) =~= snm);
    lemma_split_of_joined(nm, snm, 0);
    let pieces = split_from(snm, 0, COLON);
    assert(pieces_valid(pieces)) by {
        assert forall|t: int| 0 <= t < pieces.len() implies valid_utf8(#[trigger] pieces[t]) by {
            assert(pieces[t] == encode_utf8(nm[t]));
            lemma_ascii_encode(nm[t]);
        }
    }
    assert(pieces.map(|k: int, pc: Seq<u8>| decode_utf8(pc)) =~= nm) by {
        assert forall|t: int| 0 <= t < pieces.len() implies pieces.map(
            |k: int, pc: Seq<u8>| decode_utf8(pc),
        )[t] == nm[t] by {
            assert(pieces[t] == encode_utf8(nm[t]));
            lemma_ascii_encode(nm[t]);
        }
    }
    lemma_shift_subrange(b, i, jj + 1, jj + 1 + sf.len() as int, sn);
    assert(sn.subrange(jj + 1 - i, jj + 1 - i + sf.len() as int) =~= sf);
    assert(b[jj + 1 + sf.len() as int] == sn[sn.len() - 1]);
    assert(b[jj + 1 + sf.len() as int] == RBRACE);
    lemma_rt_entries(n.fields, b, jj + 1);
    lemma_insert_all_unique(Seq::empty(), n.fields);
    assert(Seq::empty() + n.fields =~= n.fields);
    assert(parse_node(b, i) == Ok::<(NodeView, int), ErrView>(
        (NodeView { name: nm, fields: n.fields }, i + sn.len() as int),
    ));
    assert(NodeView { name: nm, fields: n.fields } == n);
}

/// Serialized name parts hold no `{` byte, and no `:` inside a part.
proof fn lemma_ser_name_parts(nm: Seq<Seq<char>>)
    requires
        forall|t: int| 0 <= t < nm.len() ==> wf_name_part(#[trigger] nm[t]),
    ensures
        forall|k: int| 0 <= k < ser_name(nm).len() ==> #[trigger] ser_name(nm)[k] != LBRACE,
    decreases nm.len(),
{
    if nm.len() == 1 {
        lemma_ascii_encode(nm[0]);
        assert forall|k: int| 0 <= k < ser_name(nm).len() implies #[trigger] ser_name(nm)[k]
            != LBRACE by {
            assert(ser_name(nm)[k] == encode_utf8(nm[0])[k]);
            assert(encode_utf8(nm[0])[k] == nm[0][k] as u8);
            if nm[0][k] as u8 == LBRACE {
                lemma_ascii_byte_char(nm[0][k], '{');
            }
        }
    } else if nm.len() >= 2 {
        lemma_ser_name_front(nm);
        lemma_ser_name_parts(nm.drop_first());
        lemma_ascii_encode(nm[0]);
        let l0 = encode_utf8(nm[0]).len() as int;
        assert forall|k: int| 0 <= k < ser_name(nm).len() implies #[trigger] ser_name(nm)[k]
            != LBRACE by {
            if k < l0 {
                assert(ser_name(nm)[k] == encode_utf8(nm[0])[k]);
                assert(encode_utf8(nm[0])[k] == nm[0][k] as u8);
                if nm[0][k] as u8 == LBRACE {
                    lemma_ascii_byte_char(nm[0][k], '{');
                }
            } else if k == l0 {
                assert(ser_name(nm)[k] == COLON);
            } else {
                assert(ser_name(nm)[k] == ser_name(nm.drop_first())[k - l0 - 1]);
            }
        }
    }
}

/// Splitting the joined name bytes recovers the encoded parts.
/// `s` holds `ser_name(nm)` as its suffix from `pos`.
proof fn lemma_split_of_joined(nm: Seq<Seq<char>>, s: Seq<u8>, pos: int)
    requires
        nm.len() >= 1,
        forall|t: int| 0 <= t < nm.len() ==> wf_name_part(#[trigger] nm[t]),
        0 <= pos,
        pos + ser_name(nm).len() == s.len(),
        s.subrange(pos, s.len() as int) == ser_name(nm),
    ensures
        split_from(s, pos, COLON) == Seq::new(nm.len(), |k: int| encode_utf8(nm[k])),
    decreases nm.len(),
{
    lemma_ascii_encode(nm[0]);
    let l0 = encode_utf8(nm[0]).len() as int;
    if nm.len() >= 2 {
        lemma_ser_name_front(nm);
    }
    assert(l0 <= ser_name(nm).len());
    assert forall|k: int| pos <= k < pos + l0 implies #[trigger] s[k] != COLON by {
        assert(s.subrange(pos, s.len() as int)[k - pos] == s[pos + (k - pos)]);
        assert(pos + (k - pos) == k);
        assert(s[k] == ser_name(nm)[k - pos]);
        assert(ser_name(nm)[k - pos] == encode_utf8(nm[0])[k - pos]);
        assert(encode_utf8(nm[0])[k - pos] == nm[0][k - pos] as u8);
        if nm[0][k - pos] as u8 == COLON {
            lemma_ascii_byte_char(nm[0][k - pos], ':');
        }
    }
    if nm.len() == 1 {
        lemma_find_stop_none(s, pos, COLON);
        assert(split_from(s, pos, COLON) == seq![s.subrange(pos, s.len() as int)]);
        assert(seq![s.subrange(pos, s.len() as int)] =~= Seq::new(
            nm.len(),
            |k: int| encode_utf8(nm[k]),
        ));
    } else {
        assert(s.subrange(pos, s.len() as int)[l0] == s[pos + l0]);
        assert(s[pos + l0] == COLON);
        lemma_find_stop_from(s, pos, pos + l0, COLON);
        assert(s.subrange(pos + l0 + 1, s.len() as int) =~= ser_name(nm.drop_first())) by {
            assert forall|k: int| 0 <= k < s.len() - pos - l0 - 1 implies s.subrange(
                pos + l0 + 1,
                s.len() as int,
            )[k] == ser_name(nm.drop_first())[k] by {
                assert(s.subrange(pos, s.len() as int)[l0 + 1 + k] == s[pos + l0 + 1 + k]);
            }
        }
        lemma_split_of_joined(nm.drop_first(), s, pos + l0 + 1);
        assert(s.subrange(pos, pos + l0) =~= encode_utf8(nm[0])) by {
            assert forall|k: int| 0 <= k < l0 implies s.subrange(pos, pos + l0)[k] == encode_utf8(
                nm[0],
            )[k] by {
                assert(s.subrange(pos, s.len() as int)[k] == s[pos + k]);
                assert(s[pos + k] == ser_name(nm)[k]);
            }
        }
        assert(split_from(s, pos, COLON) == seq![encode_utf8(nm[0])] + split_from(
            s,
            pos + l0 + 1,
            COLON,
        ));
        assert(split_from(s, pos, COLON) =~= Seq::new(nm.len(), |k: int| encode_utf8(nm[k])));
    }
}

/// Round trip of serialized entries followed by the closing brace.
#[verifier::rlimit(60)]
proof fn lemma_rt_entries(fs: Seq<(Seq<char>, ParamView)>, b: Seq<u8>, i: int)
    requires
        wf_entries(fs),
        0 <= i,
        i + ser_fields(fs).len() + 1 <= b.len(),
        b.subrange(i, i + ser_fields(fs).len() as int) == ser_fields(fs),
        b[i + ser_fields(fs).len() as int] == RBRACE,
    ensures
        parse_entries(b, i) == Ok::<(Seq<(Seq<char>, ParamView)>, int), ErrView>(
            (fs, i + ser_fields(fs).len() as int + 1),
        ),
    decreases fs,
{
    let sf = ser_fields(fs);
    assert forall|k: int| 0 <= k < sf.len() implies #[trigger] b[i + k] == sf[k] by {
        assert(b.subrange(i, i + sf.len() as int)[k] == b[i + k]);
    }
    if fs.len() == 0 {
        assert(b[i] == RBRACE);
        assert(fs =~= Seq::<(Seq<char>, ParamView)>::empty());
    } else {
        lemma_ser_fields_front(fs);
        lemma_wf_entries_index(fs, 0);
        let k0 = fs[0].0;
        let v0 = fs[0].1;
        lemma_ascii_encode(k0);
        let l0 = encode_utf8(k0).len() as int;
        assert forall|k: int| i <= k < i + l0 implies #[trigger] b[k] != EQUALS && b[k]
            != RBRACE by {
            assert(b[k] == sf[k - i]);
            assert(sf[k - i] == encode_utf8(k0)[k - i]);
            assert(encode_utf8(k0)[k - i] == k0[k - i] as u8);
            if k0[k - i] as u8 == EQUALS {
                lemma_ascii_byte_char(k0[k - i], '=');
            }
            if k0[k - i] as u8 == RBRACE {
                lemma_ascii_byte_char(k0[k - i], '}');
            }
        }
        assert(b[i] != RBRACE);
        let jj = i + l0;
        assert(b[jj] == sf[l0]);
        assert(b[jj] == EQUALS);
        lemma_find_stop2_from(b, i + 1, jj, EQUALS, RBRACE);
        lemma_shift_subrange(b, i, i, jj, sf);
        assert(sf.subrange(0, l0) =~= encode_utf8(k0));
        let sv = ser_param(v0);
        lemma_shift_subrange(b, i, jj + 1, jj + 1 + sv.len() as int, sf);
        assert(sf.subrange(l0 + 1, l0 + 1 + sv.len() as int) =~= sv);
        assert(b[jj + 1 + sv.len() as int] == sf[l0 + 1 + sv.len()]);
        assert(b[jj + 1 + sv.len() as int] == SEMI);
        assert(!is_int_byte(SEMI) && !is_float_byte(SEMI));
        lemma_rt_param(v0, b, jj + 1);
        let n = jj + 1 + sv.len() as int + 1;
        assert(skip_term(b, jj + 1 + sv.len() as int) == n);
        assert(clampi(n, jj + 2, b.len() as int) == n);
        lemma_wf_entries_drop_first(fs);
        let rest = fs.drop_first();
        lemma_shift_subrange(b, i, n, n + ser_fields(rest).len() as int, sf);
        assert(sf.subrange(n - i, n - i + ser_fields(rest).len() as int) =~= ser_fields(rest));
        assert(b[n + ser_fields(rest).len() as int] == RBRACE);
        lemma_rt_entries(rest, b, n);
        assert(b[i] == sf[0]) by {
            assert(b.subrange(i, i + sf.len() as int)[0] == b[i + 0]);
        }
        let kview = decode_utf8(b.subrange(i, jj));
        assert(b.subrange(i, jj) == encode_utf8(k0));
        assert(kview == k0);
        let pv = match parse_param(b, jj + 1) {
            Ok(pr) => pr.0,
            Err(_) => ParamView::Bool(false),
        };
        assert(pv == v0);
        assert(seq![(kview, pv)] =~= seq![(k0, v0)]);
        assert(seq![(k0, v0)] + rest =~= fs);
        let res = parse_entries(b, i);
        assert(res is Ok);
        assert(res->Ok_0.0 == seq![(kview, pv)] + rest);
        assert(seq![(kview, pv)] + rest == seq![(k0, v0)] + rest);
        assert(res->Ok_0.0 == fs);
        assert(res->Ok_0.1 == i + ser_fields(fs).len() as int + 1);
        assert(res->Ok_0 == (fs, i + ser_fields(fs).len() as int + 1));
        assert(res == Ok::<(Seq<(Seq<char>, ParamView)>, int), ErrView>(
            (fs, i + ser_fields(fs).len() as int + 1),
        ));
    }
}

/// The serialization of a well-formed parameter tree parses back to the
/// same tree, consuming the whole input.
pub proof fn lemma_round_trip_param(p: ParamView)
    requires
        wf_param(p),
    ensures
        parse_param(ser_param(p), 0) == Ok::<(ParamView, int), ErrView>(
            (p, ser_param(p).len() as int),
        ),
{
    let b = ser_param(p);
    assert(b.subrange(0, b.len() as int) =~= b);
    lemma_rt_param(p, b, 0);
}

/// The serialization of a well-formed namespaced tree parses back to the
/// same tree, consuming the whole input.
pub proof fn lemma_round_trip_node(n: NodeView)
    requires
        wf_node(n),
    ensures
        parse_node(ser_node(n), 0) == Ok::<(NodeView, int), ErrView>(
            (n, ser_node(n).len() as int),
        ),
{
    let b = ser_node(n);
    assert(b.subrange(0, b.len() as int) =~= b);
    lemma_rt_node(n, b, 0);
}

impl<T> Parameter<T> {
    /// The wire form of this tree.
    pub fn serialize(&self) -> (r: Vec<u8>)
        ensures
            r@ == ser_param(self@),
    {
        let mut out: Vec<u8> = Vec::new();
        write_param(self, &mut out);
        proof {
            assert(out@ =~= ser_param(self@));
        }
        out
    }
}

impl<T> Namespaced<T> {
    /// The wire form of this tree.
    pub fn serialize(&self) -> (r: Vec<u8>)
        ensures
            r@ == ser_node(self@),
    {
        let mut out: Vec<u8> = Vec::new();
        write_node(self, &mut out);
        proof {
            assert(out@ =~= ser_node(self@));
        }
        out
    }
}

/// Serialized trees are valid UTF-8: every payload is an encoding and
/// every delimiter and numeral byte is ASCII.
pub proof fn lemma_ser_param_utf8(p: ParamView)
    ensures
        valid_utf8(ser_param(p)),
    decreases p,
{
    broadcast use vstd::utf8::valid_utf8_concat;

    lemma_ascii_seq_valid(seq![TAG_SIGNED]);
    lemma_ascii_seq_valid(seq![TAG_UNSIGNED]);
    lemma_ascii_seq_valid(seq![TAG_FLOAT]);
    lemma_ascii_seq_valid(seq![TAG_TRUE]);
    lemma_ascii_seq_valid(seq![TAG_FALSE]);
    lemma_ascii_seq_valid(seq![TAG_STRING]);
    lemma_ascii_seq_valid(seq![TAG_NESTED]);
    lemma_ascii_seq_valid(seq![MINUS]);
    match p {
        ParamView::SignedInt(v) => {
            lemma_dec_nat(if v >= 0 {
                v as nat
            } else {
                (-(v as int)) as nat
            });
            lemma_digits_valid(dec_int(v as int));
            assert(valid_utf8(seq![TAG_SIGNED] + dec_int(v as int)));
        },
        ParamView::UnsignedInt(v) => {
            lemma_dec_nat(v as nat);
            lemma_digits_valid(dec_nat(v as nat));
            assert(valid_utf8(seq![TAG_UNSIGNED] + dec_nat(v as nat)));
        },
        ParamView::Float(s) => {
            vstd::utf8::encode_utf8_valid_utf8(s);
            assert(valid_utf8(seq![TAG_FLOAT] + encode_utf8(s)));
        },
        ParamView::Bool(_) => {},
        ParamView::Str(s) => {
            lemma_dec_nat(encode_utf8(s).len());
            lemma_digits_valid(dec_nat(encode_utf8(s).len()));
            vstd::utf8::encode_utf8_valid_utf8(s);
            assert(valid_utf8(seq![TAG_STRING] + dec_nat(encode_utf8(s).len())));
            assert(valid_utf8(seq![TAG_STRING] + dec_nat(encode_utf8(s).len()) + seq![MINUS]));
            assert(valid_utf8(
                seq![TAG_STRING] + dec_nat(encode_utf8(s).len()) + seq![MINUS] + encode_utf8(s),
            ));
        },
        ParamView::Namespaced(n) => {
            lemma_ser_node_utf8(n);
            assert(valid_utf8(seq![TAG_NESTED] + ser_node(n)));
        },
    }
}

/// Serialized namespaced trees are valid UTF-8.
pub proof fn lemma_ser_node_utf8(n: NodeView)
    ensures
        valid_utf8(ser_node(n)),
    decreases n,
{
    broadcast use vstd::utf8::valid_utf8_concat;

    lemma_ser_name_utf8(n.name);
    lemma_ser_fields_utf8(n.fields);
    lemma_ascii_seq_valid(seq![LBRACE]);
    lemma_ascii_seq_valid(seq![RBRACE]);
    assert(valid_utf8(ser_name(n.name) + seq![LBRACE]));
    assert(valid_utf8(ser_name(n.name) + seq![LBRACE] + ser_fields(n.fields)));
    assert(valid_utf8(ser_name(n.name) + seq![LBRACE] + ser_fields(n.fields) + seq![RBRACE]));
}

/// Serialized names are valid UTF-8.
pub proof fn lemma_ser_name_utf8(name: Seq<Seq<char>>)
    ensures
        valid_utf8(ser_name(name)),
    decreases name,
{
    broadcast use vstd::utf8::valid_utf8_concat;

    if name.len() == 0 {
        lemma_ascii_seq_valid(Seq::empty());
    } else if name.len() == 1 {
        vstd::utf8::encode_utf8_valid_utf8(name[0]);
    } else {
        lemma_ser_name_utf8(name.drop_last());
        lemma_ascii_seq_valid(seq![COLON]);
        vstd::utf8::encode_utf8_valid_utf8(name.last());
        assert(valid_utf8(ser_name(name.drop_last()) + seq![COLON]));
        assert(valid_utf8(ser_name(name.drop_last()) + seq![COLON] + encode_utf8(name.last())));
    }
}

/// Serialized field entries are valid UTF-8.
pub proof fn lemma_ser_fields_utf8(fs: Seq<(Seq<char>, ParamView)>)
    ensures
        valid_utf8(ser_fields(fs)),
    decreases fs,
{
    broadcast use vstd::utf8::valid_utf8_concat;

    if fs.len() == 0 {
        lemma_ascii_seq_valid(Seq::empty());
    } else {
        lemma_ser_fields_utf8(fs.drop_last());
        vstd::utf8::encode_utf8_valid_utf8(fs.last().0);
        lemma_ascii_seq_valid(seq![EQUALS]);
        lemma_ser_param_utf8(fs.last().1);
        lemma_ascii_seq_valid(seq![SEMI]);
        assert(valid_utf8(ser_fields(fs.drop_last()) + encode_utf8(fs.last().0)));
        assert(valid_utf8(ser_fields(fs.drop_last()) + encode_utf8(fs.last().0) + seq![EQUALS]));
        assert(valid_utf8(
            ser_fields(fs.drop_last()) + encode_utf8(fs.last().0) + seq![EQUALS] + ser_param(
                fs.last().1,
            ),
        ));
        assert(valid_utf8(
            ser_fields(fs.drop_last()) + encode_utf8(fs.last().0) + seq![EQUALS] + ser_param(
                fs.last().1,
            ) + seq![SEMI],
        ));
    }
}

/// A sequence of bytes below 128 is valid UTF-8.
proof fn lemma_ascii_seq_valid(s: Seq<u8>)
    requires
        forall|k: int| 0 <= k < s.len() ==> #[trigger] s[k] < 128,
    ensures
        valid_utf8(s),
{
    lemma_ascii_bytes(s);
}

/// Digit sequences are ASCII, hence valid UTF-8.
proof fn lemma_digits_valid(s: Seq<u8>)
    requires
        forall|k: int| 0 <= k < s.len() ==> is_digit(#[trigger] s[k]) || s[k] == MINUS,
    ensures
        valid_utf8(s),
{
    assert forall|k: int| 0 <= k < s.len() implies #[trigger] s[k] < 128 by {}
    lemma_ascii_bytes(s);
}

} // verus!
