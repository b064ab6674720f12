//! Thinking signatures.
//!
//! A signature is a base64 text over a protobuf message. One of the fields in it names the model;
//! [`rewrite_model_in_signature`] exchanges that name and keeps everything else.

use base64::Engine;
use vstd::prelude::*;
use vstd::string::*;

use crate::text;

verus! {

/// One more than the greatest `u64`.
pub open spec fn two_64() -> int {
    0x1_0000_0000_0000_0000
}

/// The number that groups of seven bits give, the least significant group first.
pub open spec fn groups_value(s: Seq<u8>) -> nat
    decreases s.len(),
{
    if s.len() == 0 {
        0
    } else {
        (s[0] % 128) as nat + 128 * groups_value(s.subrange(1, s.len() as int))
    }
}

/// The `n` bytes at `i` are a varint: all but the last have the high bit set.
pub open spec fn is_varint(buf: Seq<u8>, i: int, n: int) -> bool {
    &&& 0 <= i
    &&& 1 <= n <= 10
    &&& i + n <= buf.len()
    &&& buf[i + n - 1] < 128
    &&& forall|j: int| i <= j < i + n - 1 ==> #[trigger] buf[j] >= 128
}

/// The varint at `i`, taken modulo 2^64, and the offset behind it.
pub open spec fn varint_at(buf: Seq<u8>, i: int) -> Option<(int, int)> {
    if exists|n: int| is_varint(buf, i, n) {
        let n = choose|n: int| is_varint(buf, i, n);
        Some((groups_value(buf.subrange(i, i + n)) as int % two_64(), i + n))
    } else {
        None
    }
}

/// The shortest varint of `v`.
pub open spec fn varint_bytes(v: nat) -> Seq<u8>
    decreases v,
{
    if v < 128 {
        seq![v as u8]
    } else {
        seq![(v % 128 + 128) as u8] + varint_bytes(v / 128)
    }
}

proof fn lemma_varint_at(buf: Seq<u8>, i: int, n: int)
    requires
        is_varint(buf, i, n),
    ensures
        varint_at(buf, i) == Some(
            (groups_value(buf.subrange(i, i + n)) as int % two_64(), i + n),
        ),
{
    let c = choose|c: int| is_varint(buf, i, c);
    assert(is_varint(buf, i, c));
    if c < n {
        assert(buf[i + c - 1] >= 128);
    }
    if n < c {
        assert(buf[i + n - 1] >= 128);
    }
}

proof fn lemma_groups_push(s: Seq<u8>, b: u8)
    ensures
        groups_value(s.push(b)) == groups_value(s) + vstd::arithmetic::power::pow(
            128,
            s.len(),
        ) * (b % 128),
    decreases s.len(),
{
    let p = vstd::arithmetic::power::pow(128, s.len());
    if s.len() == 0 {
        vstd::arithmetic::power::lemma_pow0(128);
        assert(s.push(b).subrange(1, 1) =~= Seq::<u8>::empty());
        assert(groups_value(s.push(b).subrange(1, 1)) == 0);
    } else {
        let t = s.subrange(1, s.len() as int);
        lemma_groups_push(t, b);
        assert(s.push(b).subrange(1, s.len() as int + 1) =~= t.push(b));
        let q = vstd::arithmetic::power::pow(128, t.len());
        assert(p == 128 * q) by {
            reveal(vstd::arithmetic::power::pow);
        }
        let d: int = (b % 128) as int;
        assert(128 * (q * d) == (128 * q) * d) by (nonlinear_arith);
        assert(128 * (groups_value(t) + q * d) == 128 * groups_value(t) + 128 * (q * d))
            by (nonlinear_arith);
    }
}

/// The varint at offset `start` and the offset behind it, `None` where there is none.
pub fn read_varint(buf: &[u8], start: usize) -> (r: Option<(u64, usize)>)
    ensures
        match r {
            Some((v, next)) => {
                &&& varint_at(buf@, start as int) == Some((v as int, next as int))
                &&& start < next <= buf@.len()
            },
            None => varint_at(buf@, start as int) is None,
        },
{
    let mut i: usize = start;
    let mut value: u128 = 0;
    let mut weight: u128 = 1;
    let mut n: usize = 0;
    proof {
        vstd::arithmetic::power::lemma_pow0(128);
        if start <= buf@.len() {
            assert(buf@.subrange(start as int, start as int) =~= Seq::<u8>::empty());
        }
    }
    while n < 10
        invariant
            n <= 10,
            i == start + n,
            n > 0 ==> i <= buf@.len(),
            n == 0 ==> value == 0,
            n > 0 ==> value == groups_value(buf@.subrange(start as int, i as int)),
            weight == vstd::arithmetic::power::pow(128, n as nat),
            n < 10 ==> weight <= 0x8000_0000_0000_0000,
            value < weight,
            forall|j: int| start <= j < i ==> #[trigger] buf@[j] >= 128,
        decreases 10 - n,
    {
        if i >= buf.len() {
            proof {
                assert forall|m: int| !is_varint(buf@, start as int, m) by {
                    if is_varint(buf@, start as int, m) {
                        assert(start + m - 1 < i);
                    }
                }
            }
            return None;
        }
        let b: u8 = buf[i];
        let ghost front = buf@.subrange(start as int, i as int);
        proof {
            assert(groups_value(front) == value) by {
                if n == 0 {
                    assert(front =~= Seq::<u8>::empty());
                }
            }
            lemma_groups_push(front, b);
            assert(front.push(b) =~= buf@.subrange(start as int, i + 1));
            let d: int = (b % 128) as int;
            let w: int = weight as int;
            assert(w * d <= w * 127) by (nonlinear_arith)
                requires
                    0 <= d <= 127,
                    0 <= w,
            ;
            assert(vstd::arithmetic::power::pow(128, (n + 1) as nat) == 128 * w) by {
                reveal(vstd::arithmetic::power::pow);
            }
        }
        let part: u128 = weight * ((b % 128) as u128);
        value = value + part;
        if b < 128 {
            proof {
                lemma_varint_at(buf@, start as int, n + 1);
            }
            return Some(((value % 0x1_0000_0000_0000_0000) as u64, i + 1));
        }
        weight = weight * 128;
        i = i + 1;
        n = n + 1;
        proof {
            if n < 10 {
                lemma_weight_bound(n as nat);
            }
        }
    }
    proof {
        assert forall|m: int| !is_varint(buf@, start as int, m) by {
            if is_varint(buf@, start as int, m) {
                assert(buf@[start + m - 1] >= 128);
            }
        }
    }
    None
}

proof fn lemma_weight_bound(n: nat)
    requires
        n < 10,
    ensures
        vstd::arithmetic::power::pow(128, n) <= 0x8000_0000_0000_0000,
{
    reveal(vstd::arithmetic::power::pow);
    reveal_with_fuel(vstd::arithmetic::power::pow, 11);
}

/// Appends the shortest varint of `val`.
pub fn write_varint(val: u64, out: &mut Vec<u8>)
    ensures
        final(out)@ == old(out)@ + varint_bytes(val as nat),
{
    let mut rest: u64 = val;
    let ghost first = out@;
    while rest >= 128
        invariant
            first + varint_bytes(val as nat) == out@ + varint_bytes(rest as nat),
        decreases rest,
    {
        let ghost before = out@;
        let low: u8 = (rest % 128) as u8;
        out.push(low + 128);
        proof {
            assert(before + varint_bytes(rest as nat) =~= out@ + varint_bytes((rest / 128) as nat));
        }
        rest = rest / 128;
    }
    let ghost before = out@;
    out.push(rest as u8);
    proof {
        assert(before + varint_bytes(rest as nat) =~= out@);
    }
}

/// Reading what was written gives the number back, whatever stands around it.
pub proof fn varint_reads_back(front: Seq<u8>, v: u64, rest: Seq<u8>)
    ensures
        varint_at(front + varint_bytes(v as nat) + rest, front.len() as int) == Some(
            (v as int, (front.len() + varint_bytes(v as nat).len()) as int),
        ),
{
    let n = varint_bytes(v as nat).len() as int;
    let all = front + varint_bytes(v as nat) + rest;
    let i = front.len() as int;
    assert(vstd::arithmetic::power::pow(128, 10) > v) by {
        reveal(vstd::arithmetic::power::pow);
        reveal_with_fuel(vstd::arithmetic::power::pow, 11);
    }
    lemma_varint_bytes(v as nat, 10);
    assert forall|j: int| 0 <= j < n implies #[trigger] all[i + j] == varint_bytes(v as nat)[j] by {}
    assert(all.subrange(i, i + n) =~= varint_bytes(v as nat));
    assert(is_varint(all, i, n)) by {
        assert(all[i + (n - 1)] == varint_bytes(v as nat)[n - 1]);
        assert forall|j: int| i <= j < i + n - 1 implies #[trigger] all[j] >= 128 by {
            assert(all[i + (j - i)] == varint_bytes(v as nat)[j - i]);
        }
    }
    lemma_varint_at(all, i, n);
    assert(v as int % two_64() == v) by (nonlinear_arith)
        requires
            0 <= v < 0x1_0000_0000_0000_0000,
            two_64() == 0x1_0000_0000_0000_0000,
    ;
}

proof fn lemma_varint_bytes(v: nat, k: nat)
    requires
        k >= 1,
        v < vstd::arithmetic::power::pow(128, k),
    ensures
        1 <= varint_bytes(v).len() <= k,
        groups_value(varint_bytes(v)) == v,
        varint_bytes(v)[varint_bytes(v).len() - 1] < 128,
        forall|j: int| 0 <= j < varint_bytes(v).len() - 1 ==> #[trigger] varint_bytes(v)[j] >= 128,
    decreases v,
{
    if v < 128 {
        let s = varint_bytes(v);
        assert(s.subrange(1, 1) =~= Seq::<u8>::empty());
        assert(groups_value(s.subrange(1, s.len() as int)) == 0);
    } else {
        let s = varint_bytes(v);
        let t = varint_bytes(v / 128);
        if k == 1 {
            vstd::arithmetic::power::lemma_pow1(128);
        }
        assert(vstd::arithmetic::power::pow(128, k) == 128 * vstd::arithmetic::power::pow(
            128,
            (k - 1) as nat,
        )) by {
            reveal(vstd::arithmetic::power::pow);
        }
        lemma_varint_bytes(v / 128, (k - 1) as nat);
        assert(s.subrange(1, s.len() as int) =~= t);
        assert forall|j: int| 0 <= j < s.len() - 1 implies #[trigger] s[j] >= 128 by {
            if j > 0 {
                assert(s[j] == t[j - 1]);
            }
        }
        assert(s[s.len() - 1] == t[t.len() - 1]);
    }
}

/// A field of a protobuf message: its key (field number and wire type) and its value. The value
/// of a length-delimited field is its content, without the length.
pub struct Field {
    pub key: int,
    pub body: Seq<u8>,
}

impl Field {
    pub open spec fn wire(self) -> int {
        self.key % 8
    }

    /// The field number, taken modulo 2^32.
    pub open spec fn number(self) -> int {
        (self.key / 8) % 0x1_0000_0000
    }
}

/// The field at offset `i` and the offset behind it.
pub open spec fn field_at(buf: Seq<u8>, i: int) -> Option<(Field, int)> {
    match varint_at(buf, i) {
        None => None,
        Some((key, at)) => {
            let wire = key % 8;
            if wire == 0 {
                match varint_at(buf, at) {
                    None => None,
                    Some((_, next)) => Some((Field { key, body: buf.subrange(at, next) }, next)),
                }
            } else if wire == 2 {
                match varint_at(buf, at) {
                    None => None,
                    Some((len, start)) => if start + len <= buf.len() {
                        Some((Field { key, body: buf.subrange(start, start + len) }, start + len))
                    } else {
                        None
                    },
                }
            } else if wire == 5 && at + 4 <= buf.len() {
                Some((Field { key, body: buf.subrange(at, at + 4) }, at + 4))
            } else if wire == 1 && at + 8 <= buf.len() {
                Some((Field { key, body: buf.subrange(at, at + 8) }, at + 8))
            } else {
                None
            }
        },
    }
}

/// `front` followed by `rest`, where there is a rest.
pub open spec fn prepend(front: Seq<Field>, rest: Option<Seq<Field>>) -> Option<Seq<Field>> {
    match rest {
        Some(s) => Some(front + s),
        None => None,
    }
}

/// The fields from offset `i` to the end of the message.
pub open spec fn fields_from(buf: Seq<u8>, i: int) -> Option<Seq<Field>>
    decreases buf.len() - i,
{
    if i >= buf.len() {
        Some(Seq::empty())
    } else {
        match field_at(buf, i) {
            None => None,
            Some((f, next)) => if next <= i {
                None
            } else {
                prepend(seq![f], fields_from(buf, next))
            },
        }
    }
}

/// The bytes of a field.
pub open spec fn field_bytes(f: Field) -> Seq<u8> {
    if f.wire() == 2 {
        varint_bytes(f.key as nat) + varint_bytes(f.body.len()) + f.body
    } else {
        varint_bytes(f.key as nat) + f.body
    }
}

/// The bytes of a message.
pub open spec fn message_bytes(fields: Seq<Field>) -> Seq<u8>
    decreases fields.len(),
{
    if fields.len() == 0 {
        Seq::empty()
    } else {
        message_bytes(fields.drop_last()) + field_bytes(fields.last())
    }
}

/// The field is the one that a rewrite enters or, at the end of the path, exchanges.
pub open spec fn is_hit(f: Field, path: Seq<u32>, target: u32) -> bool {
    f.wire() == 2 && f.number() == (if path.len() > 0 {
        path[0]
    } else {
        target
    })
}

/// The content of a field after a rewrite.
pub open spec fn rewritten_body(f: Field, path: Seq<u32>, target: u32, value: Seq<u8>) -> Option<
    Seq<u8>,
>
    decreases path.len(), 0nat,
{
    if !is_hit(f, path, target) {
        Some(f.body)
    } else if path.len() > 0 {
        rewritten(f.body, path.subrange(1, path.len() as int), target, value)
    } else {
        Some(value)
    }
}

/// The fields of a message after a rewrite, where each of them has one.
pub open spec fn rewritten_fields(
    fields: Seq<Field>,
    path: Seq<u32>,
    target: u32,
    value: Seq<u8>,
) -> Option<Seq<Field>>
    decreases path.len(), 1nat, fields.len(),
{
    if fields.len() == 0 {
        Some(Seq::empty())
    } else {
        match rewritten_fields(fields.drop_last(), path, target, value) {
            None => None,
            Some(front) => match rewritten_body(fields.last(), path, target, value) {
                None => None,
                Some(body) => Some(front.push(Field { key: fields.last().key, body })),
            },
        }
    }
}

/// The message after its string field `target`, reached by entering the submessages of `path`,
/// has got the content `value`. `None` where the bytes are no message of that shape.
pub open spec fn rewritten(buf: Seq<u8>, path: Seq<u32>, target: u32, value: Seq<u8>) -> Option<
    Seq<u8>,
>
    decreases path.len(), 2nat,
{
    match fields_from(buf, 0) {
        None => None,
        Some(fields) => match rewritten_fields(fields, path, target, value) {
            None => None,
            Some(new_fields) => if exists|i: int|
                0 <= i < fields.len() && is_hit(#[trigger] fields[i], path, target) {
                Some(message_bytes(new_fields))
            } else {
                None
            },
        },
    }
}

proof fn lemma_varint_bounds(buf: Seq<u8>, i: int)
    ensures
        varint_at(buf, i) matches Some((v, next)) ==> {
            &&& 0 <= v < two_64()
            &&& i < next <= buf.len()
            &&& 0 <= i
        },
{
    if exists|n: int| is_varint(buf, i, n) {
        let n = choose|n: int| is_varint(buf, i, n);
        let g = groups_value(buf.subrange(i, i + n)) as int;
        assert(0 <= g % two_64() < two_64()) by (nonlinear_arith)
            requires
                two_64() == 0x1_0000_0000_0000_0000,
        ;
    }
}

proof fn lemma_field_bounds(buf: Seq<u8>, i: int)
    ensures
        field_at(buf, i) matches Some((f, next)) ==> i < next <= buf.len() && 0 <= f.key
            < two_64(),
{
    lemma_varint_bounds(buf, i);
    if let Some((key, at)) = varint_at(buf, i) {
        lemma_varint_bounds(buf, at);
    }
}

/// The fields so far and those from `i` on make up those from `i` on with one more moved over.
proof fn lemma_fields_step(buf: Seq<u8>, done: Seq<Field>, i: int, f: Field, next: int)
    requires
        0 <= i < buf.len(),
        field_at(buf, i) == Some((f, next)),
    ensures
        prepend(done, fields_from(buf, i)) == prepend(done.push(f), fields_from(buf, next)),
{
    lemma_field_bounds(buf, i);
    if let Some(rest) = fields_from(buf, next) {
        assert(done + (seq![f] + rest) =~= done.push(f) + rest);
    }
}

proof fn lemma_rewritten_fields_len(
    fields: Seq<Field>,
    path: Seq<u32>,
    target: u32,
    value: Seq<u8>,
)
    ensures
        rewritten_fields(fields, path, target, value) matches Some(r) ==> {
            &&& r.len() == fields.len()
            &&& forall|i: int|
                0 <= i < fields.len() ==> (#[trigger] r[i]).key == fields[i].key && Some(r[i].body)
                    == rewritten_body(fields[i], path, target, value)
        },
    decreases fields.len(),
{
    if fields.len() > 0 {
        lemma_rewritten_fields_len(fields.drop_last(), path, target, value);
        if let Some(r) = rewritten_fields(fields, path, target, value) {
            assert forall|i: int| 0 <= i < fields.len() implies (#[trigger] r[i]).key
                == fields[i].key && Some(r[i].body) == rewritten_body(
                fields[i],
                path,
                target,
                value,
            ) by {
                if i < fields.len() - 1 {
                    assert(r.drop_last()[i] == r[i]);
                    assert(fields.drop_last()[i] == fields[i]);
                    assert(rewritten_fields(fields.drop_last(), path, target, value)
                        == Some(r.drop_last())) by {
                        assert(r.drop_last() =~= rewritten_fields(
                            fields.drop_last(),
                            path,
                            target,
                            value,
                        )->0);
                    }
                }
            }
        }
    }
}

/// A field without a rewrite leaves the message without one.
proof fn lemma_rewrite_fails(
    done: Seq<Field>,
    f: Field,
    rest: Seq<Field>,
    path: Seq<u32>,
    target: u32,
    value: Seq<u8>,
)
    requires
        rewritten_body(f, path, target, value) is None,
    ensures
        rewritten_fields(done.push(f) + rest, path, target, value) is None,
    decreases rest.len(),
{
    let all = done.push(f) + rest;
    if rest.len() == 0 {
        assert(all =~= done.push(f));
        assert(all.drop_last() =~= done);
    } else {
        lemma_rewrite_fails(done, f, rest.drop_last(), path, target, value);
        assert(all.drop_last() =~= done.push(f) + rest.drop_last());
    }
}

/// The key of the field at offset `i` and the range of its value, `None` where there is no field.
fn read_field(buf: &[u8], i: usize) -> (r: Option<(u64, usize, usize)>)
    requires
        i < buf@.len(),
    ensures
        match r {
            Some((key, start, end)) => {
                &&& start <= end <= buf@.len()
                &&& i < end
                &&& field_at(buf@, i as int) == Some(
                    (
                        Field { key: key as int, body: buf@.subrange(start as int, end as int) },
                        end as int,
                    ),
                )
            },
            None => field_at(buf@, i as int) is None,
        },
{
    proof {
        lemma_varint_bounds(buf@, i as int);
    }
    let (key, at): (u64, usize) = match read_varint(buf, i) {
        Some(pair) => pair,
        None => {
            return None;
        },
    };
    proof {
        lemma_varint_bounds(buf@, at as int);
    }
    let wire: u64 = key % 8;
    if wire == 0 {
        match read_varint(buf, at) {
            Some((_value, next)) => Some((key, at, next)),
            None => None,
        }
    } else if wire == 2 {
        match read_varint(buf, at) {
            Some((len, next)) => if len > (buf.len() - next) as u64 {
                None
            } else {
                Some((key, next, next + len as usize))
            },
            None => None,
        }
    } else if wire == 5 {
        if buf.len() - at < 4 {
            None
        } else {
            Some((key, at, at + 4))
        }
    } else if wire == 1 {
        if buf.len() - at < 8 {
            None
        } else {
            Some((key, at, at + 8))
        }
    } else {
        None
    }
}

/// Appends a field.
fn write_field(key: u64, body: &[u8], out: &mut Vec<u8>)
    ensures
        final(out)@ == old(out)@ + field_bytes(Field { key: key as int, body: body@ }),
{
    write_varint(key, out);
    if key % 8 == 2 {
        write_varint(body.len() as u64, out);
    }
    let ghost head = out@;
    out.extend_from_slice(body);
    proof {
        assert(out@ =~= head + body@);
        assert(out@ =~= old(out)@ + field_bytes(Field { key: key as int, body: body@ }));
    }
}

/// The content of a field after a rewrite.
fn rewrite_body(
    key: u64,
    content: &[u8],
    path: &[u32],
    target_field: u32,
    new_value: &[u8],
) -> (r: Option<Vec<u8>>)
    ensures
        match r {
            Some(body) => rewritten_body(
                Field { key: key as int, body: content@ },
                path@,
                target_field,
                new_value@,
            ) == Some(body@),
            None => rewritten_body(
                Field { key: key as int, body: content@ },
                path@,
                target_field,
                new_value@,
            ) is None,
        },
    decreases path@.len(), 0nat,
{
    if !hits(key, path, target_field) {
        Some(vstd::slice::slice_to_vec(content))
    } else if path.len() > 0 {
        let below = vstd::slice::slice_subrange(path, 1, path.len());
        rewrite_message(content, below, target_field, new_value)
    } else {
        Some(vstd::slice::slice_to_vec(new_value))
    }
}

/// Whether a field with this key is entered or exchanged.
fn hits(key: u64, path: &[u32], target_field: u32) -> (r: bool)
    ensures
        forall|body: Seq<u8>|
            r == #[trigger] is_hit(Field { key: key as int, body }, path@, target_field),
{
    let wanted: u32 = if path.len() > 0 {
        path[0]
    } else {
        target_field
    };
    key % 8 == 2 && (key / 8) % 0x1_0000_0000 == wanted as u64
}

proof fn lemma_rewrite_step(
    done: Seq<Field>,
    new_done: Seq<Field>,
    f: Field,
    body: Seq<u8>,
    path: Seq<u32>,
    target: u32,
    value: Seq<u8>,
)
    requires
        rewritten_fields(done, path, target, value) == Some(new_done),
        rewritten_body(f, path, target, value) == Some(body),
    ensures
        rewritten_fields(done.push(f), path, target, value) == Some(
            new_done.push(Field { key: f.key, body }),
        ),
        message_bytes(new_done.push(Field { key: f.key, body })) == message_bytes(new_done)
            + field_bytes(Field { key: f.key, body }),
{
    assert(done.push(f).drop_last() =~= done);
    assert(new_done.push(Field { key: f.key, body }).drop_last() =~= new_done);
}

/// Exchanges the content of the string field `target_field`, reached by entering the submessages
/// of `path`. Bytes that are no message of that shape give `None`.
pub fn rewrite_message(
    buf: &[u8],
    path: &[u32],
    target_field: u32,
    new_value: &[u8],
) -> (r: Option<Vec<u8>>)
    ensures
        match r {
            Some(out) => rewritten(buf@, path@, target_field, new_value@) == Some(out@),
            None => rewritten(buf@, path@, target_field, new_value@) is None,
        },
    decreases path@.len(), 1nat,
{
    let mut out: Vec<u8> = Vec::new();
    let mut i: usize = 0;
    let mut hit: bool = false;
    let ghost mut done: Seq<Field> = Seq::empty();
    let ghost mut new_done: Seq<Field> = Seq::empty();
    proof {
        if let Some(s) = fields_from(buf@, 0) {
            assert(Seq::<Field>::empty() + s =~= s);
        }
    }
    while i < buf.len()
        invariant
            i <= buf@.len(),
            fields_from(buf@, 0) == prepend(done, fields_from(buf@, i as int)),
            rewritten_fields(done, path@, target_field, new_value@) == Some(new_done),
            out@ == message_bytes(new_done),
            hit == exists|j: int|
                0 <= j < done.len() && is_hit(#[trigger] done[j], path@, target_field),
        decreases buf@.len() - i,
    {
        let (key, start, end): (u64, usize, usize) = match read_field(buf, i) {
            Some(field) => field,
            None => {
                return None;
            },
        };
        let content = vstd::slice::slice_subrange(buf, start, end);
        let ghost f = Field { key: key as int, body: content@ };
        proof {
            lemma_fields_step(buf@, done, i as int, f, end as int);
        }
        match rewrite_body(key, content, path, target_field, new_value) {
            Some(body) => {
                write_field(key, body.as_slice(), &mut out);
                if hits(key, path, target_field) {
                    hit = true;
                }
                proof {
                    lemma_hit_push(done, f, path@, target_field);
                    lemma_rewrite_step(
                        done,
                        new_done,
                        f,
                        body@,
                        path@,
                        target_field,
                        new_value@,
                    );
                    done = done.push(f);
                    new_done = new_done.push(Field { key: f.key, body: body@ });
                }
            },
            None => {
                proof {
                    if let Some(rest) = fields_from(buf@, end as int) {
                        lemma_rewrite_fails(done, f, rest, path@, target_field, new_value@);
                    }
                }
                return None;
            },
        }
        i = end;
    }
    proof {
        assert(done + Seq::<Field>::empty() =~= done);
    }
    if !hit {
        return None;
    }
    Some(out)
}

proof fn lemma_hit_push(done: Seq<Field>, f: Field, path: Seq<u32>, target: u32)
    ensures
        (exists|j: int| 0 <= j < done.push(f).len() && is_hit(#[trigger] done.push(f)[j], path, target))
            == ((exists|j: int| 0 <= j < done.len() && is_hit(#[trigger] done[j], path, target))
            || is_hit(f, path, target)),
{
    let all = done.push(f);
    if exists|j: int| 0 <= j < all.len() && is_hit(#[trigger] all[j], path, target) {
        let j = choose|j: int| 0 <= j < all.len() && is_hit(#[trigger] all[j], path, target);
        if j < done.len() {
            assert(is_hit(done[j], path, target));
        }
    }
    if exists|j: int| 0 <= j < done.len() && is_hit(#[trigger] done[j], path, target) {
        let j = choose|j: int| 0 <= j < done.len() && is_hit(#[trigger] done[j], path, target);
        assert(is_hit(all[j], path, target));
    }
    if is_hit(f, path, target) {
        assert(is_hit(all[done.len() as int], path, target));
    }
}

/// The value of a field has the form that its wire type asks for.
pub open spec fn is_field(f: Field) -> bool {
    &&& 0 <= f.key < two_64()
    &&& if f.wire() == 0 {
        is_varint(f.body, 0, f.body.len() as int)
    } else if f.wire() == 2 {
        f.body.len() < two_64()
    } else if f.wire() == 5 {
        f.body.len() == 4
    } else {
        f.wire() == 1 && f.body.len() == 8
    }
}

/// A varint reads the same wherever its bytes stand.
proof fn lemma_varint_moves(front: Seq<u8>, body: Seq<u8>, rest: Seq<u8>)
    requires
        is_varint(body, 0, body.len() as int),
    ensures
        varint_at(front + body + rest, front.len() as int) == Some(
            (groups_value(body) as int % two_64(), (front.len() + body.len()) as int),
        ),
{
    let all = front + body + rest;
    let i = front.len() as int;
    let n = body.len() as int;
    assert forall|j: int| 0 <= j < n implies #[trigger] all[i + j] == body[j] by {}
    assert(is_varint(all, i, n)) by {
        assert(all[i + (n - 1)] == body[n - 1]);
        assert forall|j: int| i <= j < i + n - 1 implies #[trigger] all[j] >= 128 by {
            assert(all[i + (j - i)] == body[j - i]);
        }
    }
    assert(all.subrange(i, i + n) =~= body);
    lemma_varint_at(all, i, n);
}

proof fn lemma_field_reads_back(front: Seq<u8>, f: Field, rest: Seq<u8>)
    requires
        is_field(f),
    ensures
        field_at(front + field_bytes(f) + rest, front.len() as int) == Some(
            (f, (front.len() + field_bytes(f).len()) as int),
        ),
{
    let all = front + field_bytes(f) + rest;
    let key_bytes = varint_bytes(f.key as nat);
    let at = (front.len() + key_bytes.len()) as int;
    if f.wire() == 2 {
        let len_bytes = varint_bytes(f.body.len());
        assert(all =~= front + key_bytes + (len_bytes + f.body + rest));
        varint_reads_back(front, f.key as u64, len_bytes + f.body + rest);
        assert(all =~= (front + key_bytes) + len_bytes + (f.body + rest));
        varint_reads_back(front + key_bytes, f.body.len() as u64, f.body + rest);
        let start = at + len_bytes.len();
        assert(all.subrange(start, start + f.body.len()) =~= f.body);
    } else {
        assert(all =~= front + key_bytes + (f.body + rest));
        varint_reads_back(front, f.key as u64, f.body + rest);
        assert(all.subrange(at, at + f.body.len()) =~= f.body);
        if f.wire() == 0 {
            assert(all =~= (front + key_bytes) + f.body + rest);
            lemma_varint_moves(front + key_bytes, f.body, rest);
        }
    }
}

proof fn lemma_message_first(fields: Seq<Field>)
    requires
        fields.len() > 0,
    ensures
        message_bytes(fields) == field_bytes(fields[0]) + message_bytes(
            fields.subrange(1, fields.len() as int),
        ),
    decreases fields.len(),
{
    let tail = fields.subrange(1, fields.len() as int);
    if fields.len() == 1 {
        assert(fields.drop_last() =~= Seq::<Field>::empty());
        assert(tail =~= Seq::<Field>::empty());
        assert(message_bytes(fields) =~= field_bytes(fields[0]) + message_bytes(tail));
    } else {
        lemma_message_first(fields.drop_last());
        assert(fields.drop_last().subrange(1, fields.len() - 1) =~= tail.drop_last());
        assert(message_bytes(fields) =~= field_bytes(fields[0]) + message_bytes(tail));
    }
}

proof fn lemma_field_bytes_nonempty(f: Field)
    requires
        0 <= f.key < two_64(),
    ensures
        field_bytes(f).len() > 0,
{
    assert(vstd::arithmetic::power::pow(128, 10) > f.key) by {
        reveal(vstd::arithmetic::power::pow);
        reveal_with_fuel(vstd::arithmetic::power::pow, 11);
    }
    lemma_varint_bytes(f.key as nat, 10);
}

proof fn lemma_fields_read_back(front: Seq<u8>, fields: Seq<Field>)
    requires
        forall|i: int| 0 <= i < fields.len() ==> is_field(#[trigger] fields[i]),
    ensures
        fields_from(front + message_bytes(fields), front.len() as int) == Some(fields),
    decreases fields.len(),
{
    let all = front + message_bytes(fields);
    if fields.len() == 0 {
        assert(all =~= front);
    } else {
        let f = fields[0];
        let tail = fields.subrange(1, fields.len() as int);
        lemma_message_first(fields);
        lemma_field_bytes_nonempty(f);
        assert(all =~= front + field_bytes(f) + message_bytes(tail));
        lemma_field_reads_back(front, f, message_bytes(tail));
        assert forall|i: int| 0 <= i < tail.len() implies is_field(#[trigger] tail[i]) by {
            assert(tail[i] == fields[i + 1]);
        }
        lemma_fields_read_back(front + field_bytes(f), tail);
        assert(all =~= (front + field_bytes(f)) + message_bytes(tail));
        assert(seq![f] + tail =~= fields);
    }
}

/// Fields that were written are the fields that are read.
pub proof fn message_reads_back(fields: Seq<Field>)
    requires
        forall|i: int| 0 <= i < fields.len() ==> is_field(#[trigger] fields[i]),
    ensures
        fields_from(message_bytes(fields), 0) == Some(fields),
{
    lemma_fields_read_back(Seq::empty(), fields);
    assert(Seq::<u8>::empty() + message_bytes(fields) =~= message_bytes(fields));
}

proof fn lemma_read_fields_are_fields(buf: Seq<u8>, i: int)
    requires
        0 <= i,
        buf.len() < two_64(),
    ensures
        fields_from(buf, i) matches Some(fs) ==> forall|k: int|
            0 <= k < fs.len() ==> is_field(#[trigger] fs[k]),
    decreases buf.len() - i,
{
    if i < buf.len() {
        lemma_field_bounds(buf, i);
        if let Some((f, next)) = field_at(buf, i) {
            lemma_read_fields_are_fields(buf, next);
            assert(is_field(f)) by {
                lemma_varint_bounds(buf, i);
                let (key, at) = varint_at(buf, i)->0;
                lemma_varint_bounds(buf, at);
                if key % 8 == 0 {
                    let n = choose|n: int| is_varint(buf, at, n);
                    assert(is_varint(buf, at, n));
                    assert(f.body =~= buf.subrange(at, at + n));
                    assert(is_varint(f.body, 0, n)) by {
                        assert forall|j: int| 0 <= j < n - 1 implies #[trigger] f.body[j] >= 128 by {
                            assert(f.body[j] == buf[at + j]);
                        }
                    }
                }
            }
            if let Some(rest) = fields_from(buf, next) {
                assert forall|k: int| 0 <= k < (seq![f] + rest).len() implies is_field(
                    #[trigger] (seq![f] + rest)[k],
                ) by {
                    if k > 0 {
                        assert((seq![f] + rest)[k] == rest[k - 1]);
                    }
                }
            }
        }
    }
}

proof fn lemma_body_within_message(fields: Seq<Field>, i: int)
    requires
        0 <= i < fields.len(),
    ensures
        fields[i].body.len() <= message_bytes(fields).len(),
    decreases fields.len(),
{
    if i < fields.len() - 1 {
        lemma_body_within_message(fields.drop_last(), i);
    }
}

/// A rewrite leaves the sequence of fields and their keys alone, and every value that is not on
/// the path to the target.
pub proof fn rewrite_keeps_other_fields(
    buf: Seq<u8>,
    path: Seq<u32>,
    target: u32,
    value: Seq<u8>,
    out: Seq<u8>,
)
    requires
        rewritten(buf, path, target, value) == Some(out),
        buf.len() < two_64(),
        out.len() < two_64(),
    ensures
        fields_from(buf, 0) is Some,
        fields_from(out, 0) is Some,
        fields_from(out, 0)->0.len() == fields_from(buf, 0)->0.len(),
        forall|i: int|
            0 <= i < fields_from(buf, 0)->0.len() ==> {
                let f = fields_from(buf, 0)->0[i];
                let g = #[trigger] fields_from(out, 0)->0[i];
                &&& g.key == f.key
                &&& !is_hit(f, path, target) ==> g == f
                &&& is_hit(f, path, target) && path.len() == 0 ==> g.body == value
                &&& is_hit(f, path, target) && path.len() > 0 ==> rewritten(
                    f.body,
                    path.subrange(1, path.len() as int),
                    target,
                    value,
                ) == Some(g.body)
            },
{
    let fs = fields_from(buf, 0)->0;
    let gs = rewritten_fields(fs, path, target, value)->0;
    lemma_rewritten_fields_len(fs, path, target, value);
    lemma_read_fields_are_fields(buf, 0);
    assert forall|i: int| 0 <= i < gs.len() implies is_field(#[trigger] gs[i]) by {
        lemma_body_within_message(gs, i);
        assert(is_field(fs[i]));
        assert(gs[i].key == fs[i].key);
        if !is_hit(fs[i], path, target) {
            assert(gs[i] == fs[i]);
        }
    }
    message_reads_back(gs);
}

/// Every field `target` that entering the submessages of `path` reaches holds `value`, and there
/// is one.
pub open spec fn holds_only(buf: Seq<u8>, path: Seq<u32>, target: u32, value: Seq<u8>) -> bool
    decreases path.len(),
{
    match fields_from(buf, 0) {
        None => false,
        Some(fs) => {
            &&& exists|i: int| 0 <= i < fs.len() && is_hit(#[trigger] fs[i], path, target)
            &&& forall|i: int|
                0 <= i < fs.len() && is_hit(#[trigger] fs[i], path, target) ==> if path.len() > 0 {
                    holds_only(fs[i].body, path.subrange(1, path.len() as int), target, value)
                } else {
                    fs[i].body == value
                }
        },
    }
}

/// After a rewrite the target holds the new value.
pub proof fn rewrite_sets_the_target(
    buf: Seq<u8>,
    path: Seq<u32>,
    target: u32,
    value: Seq<u8>,
    out: Seq<u8>,
)
    requires
        rewritten(buf, path, target, value) == Some(out),
        buf.len() < two_64(),
        out.len() < two_64(),
    ensures
        holds_only(out, path, target, value),
    decreases path.len(),
{
    rewrite_keeps_other_fields(buf, path, target, value, out);
    let fs = fields_from(buf, 0)->0;
    let gs = fields_from(out, 0)->0;
    lemma_read_fields_are_fields(buf, 0);
    lemma_read_fields_are_fields(out, 0);
    let h = choose|i: int| 0 <= i < fs.len() && is_hit(#[trigger] fs[i], path, target);
    assert(gs[h].key == fs[h].key);
    assert(is_hit(gs[h], path, target));
    assert forall|i: int| 0 <= i < gs.len() && is_hit(#[trigger] gs[i], path, target) implies (
    if path.len() > 0 {
        holds_only(gs[i].body, path.subrange(1, path.len() as int), target, value)
    } else {
        gs[i].body == value
    }) by {
        assert(gs[i].key == fs[i].key);
        assert(is_hit(fs[i], path, target));
        if path.len() > 0 {
            assert(is_field(fs[i]));
            assert(is_field(gs[i]));
            rewrite_sets_the_target(
                fs[i].body,
                path.subrange(1, path.len() as int),
                target,
                value,
                gs[i].body,
            );
        }
    }
}

/// Fields with the same keys and the same contents after a rewrite give the same rewrite.
proof fn lemma_same_rewrite(
    fs: Seq<Field>,
    gs: Seq<Field>,
    path: Seq<u32>,
    target: u32,
    value: Seq<u8>,
)
    requires
        fs.len() == gs.len(),
        forall|i: int|
            0 <= i < fs.len() ==> {
                &&& (#[trigger] gs[i]).key == fs[i].key
                &&& rewritten_body(gs[i], path, target, value) == rewritten_body(
                    fs[i],
                    path,
                    target,
                    value,
                )
                &&& rewritten_body(fs[i], path, target, value) is Some
            },
    ensures
        rewritten_fields(gs, path, target, value) == rewritten_fields(fs, path, target, value),
        rewritten_fields(fs, path, target, value) is Some,
    decreases fs.len(),
{
    if fs.len() > 0 {
        let n = fs.len() - 1;
        assert forall|i: int| 0 <= i < n implies {
            &&& (#[trigger] gs.drop_last()[i]).key == fs.drop_last()[i].key
            &&& rewritten_body(gs.drop_last()[i], path, target, value) == rewritten_body(
                fs.drop_last()[i],
                path,
                target,
                value,
            )
            &&& rewritten_body(fs.drop_last()[i], path, target, value) is Some
        } by {
            assert(gs.drop_last()[i] == gs[i]);
            assert(fs.drop_last()[i] == fs[i]);
        }
        lemma_same_rewrite(fs.drop_last(), gs.drop_last(), path, target, value);
        assert(gs[n].key == fs[n].key);
    }
}

/// Rewriting a rewritten message gives what rewriting the first message gives: the last value
/// counts, and the same value once more changes nothing.
pub proof fn the_last_rewrite_counts(
    buf: Seq<u8>,
    path: Seq<u32>,
    target: u32,
    value: Seq<u8>,
    out: Seq<u8>,
    other: Seq<u8>,
)
    requires
        rewritten(buf, path, target, value) == Some(out),
        buf.len() < two_64(),
        out.len() < two_64(),
    ensures
        rewritten(out, path, target, other) == rewritten(buf, path, target, other),
        rewritten(buf, path, target, other) is Some,
        rewritten(out, path, target, value) == Some(out),
{
    lemma_rewrite_again(buf, path, target, value, out, other);
    lemma_rewrite_again(buf, path, target, value, out, value);
}

proof fn lemma_rewrite_again(
    buf: Seq<u8>,
    path: Seq<u32>,
    target: u32,
    value: Seq<u8>,
    out: Seq<u8>,
    other: Seq<u8>,
)
    requires
        rewritten(buf, path, target, value) == Some(out),
        buf.len() < two_64(),
        out.len() < two_64(),
    ensures
        rewritten(out, path, target, other) == rewritten(buf, path, target, other),
        rewritten(buf, path, target, other) is Some,
    decreases path.len(),
{
    rewrite_keeps_other_fields(buf, path, target, value, out);
    let fs = fields_from(buf, 0)->0;
    let gs = fields_from(out, 0)->0;
    lemma_read_fields_are_fields(buf, 0);
    lemma_read_fields_are_fields(out, 0);
    let h = choose|i: int| 0 <= i < fs.len() && is_hit(#[trigger] fs[i], path, target);
    assert(gs[h].key == fs[h].key);
    assert(is_hit(gs[h], path, target));
    assert forall|i: int| 0 <= i < fs.len() implies {
        &&& (#[trigger] gs[i]).key == fs[i].key
        &&& rewritten_body(gs[i], path, target, other) == rewritten_body(
            fs[i],
            path,
            target,
            other,
        )
        &&& rewritten_body(fs[i], path, target, other) is Some
    } by {
        assert(is_field(fs[i]) && is_field(gs[i]));
        if is_hit(fs[i], path, target) && path.len() > 0 {
            lemma_rewrite_again(
                fs[i].body,
                path.subrange(1, path.len() as int),
                target,
                value,
                gs[i].body,
                other,
            );
        }
    }
    lemma_same_rewrite(fs, gs, path, target, other);
}

/// The bytes that a padded base64 text of the standard alphabet stands for, `None` for other text.
pub uninterp spec fn base64_bytes(s: Seq<char>) -> Option<Seq<u8>>;

/// The padded base64 text of the standard alphabet for some bytes.
pub uninterp spec fn base64_text(b: Seq<u8>) -> Seq<char>;

/// `Engine::decode` of `base64` with the engine `STANDARD`.
#[verifier::external_body]
fn base64_decode(s: &str) -> (r: Option<Vec<u8>>)
    ensures
        match r {
            Some(b) => base64_bytes(s@) == Some(b@),
            None => base64_bytes(s@) is None,
        },
{
    base64::engine::general_purpose::STANDARD.decode(s).ok()
}

/// `Engine::encode` of `base64` with the engine `STANDARD`. What it writes decodes to the bytes
/// that it was given.
#[verifier::external_body]
fn base64_encode(b: &[u8]) -> (r: String)
    ensures
        r@ == base64_text(b@),
        base64_bytes(r@) == Some(b@),
{
    base64::engine::general_purpose::STANDARD.encode(b)
}

/// The signature with the model name `model`, `None` where it has not the shape of one.
pub open spec fn signature_with_model(signature: Seq<char>, model: Seq<char>) -> Option<Seq<char>> {
    if signature.len() == 0 {
        None
    } else {
        match base64_bytes(signature) {
            None => None,
            Some(raw) => match rewritten(raw, seq![2u32, 1u32], 6, text::bytes_of(model)) {
                None => None,
                Some(bytes) => Some(base64_text(bytes)),
            },
        }
    }
}

/// Exchanges the model name inside a thinking signature. What is no such signature gives `None`.
///
/// The model field of the new signature holds the new name.
pub fn rewrite_model_in_signature(signature_b64: &str, model: &str) -> (r: Option<String>)
    ensures
        match r {
            Some(s) => {
                &&& signature_with_model(signature_b64@, model@) == Some(s@)
                &&& base64_bytes(s@) matches Some(b) && holds_only(
                    b,
                    seq![2u32, 1u32],
                    6,
                    text::bytes_of(model@),
                )
            },
            None => signature_with_model(signature_b64@, model@) is None,
        },
{
    if signature_b64.is_empty() {
        return None;
    }
    let raw: Vec<u8> = match base64_decode(signature_b64) {
        Some(b) => b,
        None => {
            return None;
        },
    };
    let path: [u32; 2] = [2, 1];
    proof {
        assert(path@ =~= seq![2u32, 1u32]);
    }
    match rewrite_message(raw.as_slice(), &path, 6, model.as_bytes()) {
        Some(bytes) => {
            let _raw_len: usize = raw.len();
            let _len: usize = bytes.len();
            proof {
                rewrite_sets_the_target(
                    raw@,
                    seq![2u32, 1u32],
                    6,
                    text::bytes_of(model@),
                    bytes@,
                );
            }
            Some(base64_encode(bytes.as_slice()))
        },
        None => None,
    }
}

/// A number below 128 is one byte; of a greater one the lowest seven bits come first, in a byte
/// that says that more follow.
pub proof fn numbers_come_with_their_lowest_bits_first(n: nat)
    ensures
        n < 128 ==> varint_bytes(n) == seq![n as u8],
        n >= 128 ==> varint_bytes(n) == seq![(n % 128 + 128) as u8] + varint_bytes(n / 128),
{
}

/// The fields around one field of a message.
pub struct Around {
    pub before: Seq<Field>,
    pub behind: Seq<Field>,
}

impl Around {
    /// The message whose field `key` between the others has the content `body`.
    pub open spec fn with(self, key: int, body: Seq<u8>) -> Seq<u8> {
        message_bytes(self.before.push(Field { key, body }) + self.behind)
    }

    /// The others are fields of a message, with numbers that need no cutting off, and none of them
    /// has the key `key`.
    pub open spec fn has_none(self, key: int) -> bool {
        &&& forall|i: int|
            0 <= i < self.before.len() ==> is_field(#[trigger] self.before[i])
                && self.before[i].key != key && self.before[i].key < 0x1_0000_0000
        &&& forall|i: int|
            0 <= i < self.behind.len() ==> is_field(#[trigger] self.behind[i])
                && self.behind[i].key != key && self.behind[i].key < 0x1_0000_0000
    }
}

/// Where no field but one is hit, that one changes alone.
proof fn lemma_one_changes(
    before: Seq<Field>,
    hit: Field,
    behind: Seq<Field>,
    path: Seq<u32>,
    target: u32,
    value: Seq<u8>,
    body: Seq<u8>,
)
    requires
        forall|i: int| 0 <= i < before.len() ==> !is_hit(#[trigger] before[i], path, target),
        forall|i: int| 0 <= i < behind.len() ==> !is_hit(#[trigger] behind[i], path, target),
        rewritten_body(hit, path, target, value) == Some(body),
    ensures
        rewritten_fields(before.push(hit) + behind, path, target, value) == Some(
            before.push(Field { key: hit.key, body }) + behind,
        ),
    decreases behind.len(),
{
    let all = before.push(hit) + behind;
    if behind.len() == 0 {
        lemma_none_changes(before, path, target, value);
        assert(all =~= before.push(hit));
        assert(all.drop_last() =~= before);
        assert(before.push(Field { key: hit.key, body }) + behind =~= before.push(
            Field { key: hit.key, body },
        ));
    } else {
        let front = behind.drop_last();
        assert forall|i: int| 0 <= i < front.len() implies !is_hit(
            #[trigger] front[i],
            path,
            target,
        ) by {
            assert(front[i] == behind[i]);
        }
        lemma_one_changes(before, hit, front, path, target, value, body);
        assert(all.drop_last() =~= before.push(hit) + front);
        let f = behind[behind.len() - 1];
        assert(all.last() == f);
        assert(!is_hit(f, path, target));
        assert(rewritten_body(f, path, target, value) == Some(f.body));
        assert((before.push(Field { key: hit.key, body }) + front).push(f) =~= before.push(
            Field { key: hit.key, body },
        ) + behind);
        assert(Field { key: f.key, body: f.body } == f);
    }
}

proof fn lemma_none_changes(fields: Seq<Field>, path: Seq<u32>, target: u32, value: Seq<u8>)
    requires
        forall|i: int| 0 <= i < fields.len() ==> !is_hit(#[trigger] fields[i], path, target),
    ensures
        rewritten_fields(fields, path, target, value) == Some(fields),
    decreases fields.len(),
{
    if fields.len() > 0 {
        let front = fields.drop_last();
        assert forall|i: int| 0 <= i < front.len() implies !is_hit(
            #[trigger] front[i],
            path,
            target,
        ) by {
            assert(front[i] == fields[i]);
        }
        lemma_none_changes(front, path, target, value);
        let f = fields[fields.len() - 1];
        assert(fields.last() == f);
        assert(!is_hit(f, path, target));
        assert(rewritten_body(f, path, target, value) == Some(f.body));
        assert(front.push(Field { key: f.key, body: f.body }) =~= fields);
    } else {
        assert(fields =~= Seq::empty());
    }
}

/// A message with one field that is hit is rewritten in that field.
proof fn lemma_rewritten_within(
    around: Around,
    key: int,
    old_body: Seq<u8>,
    path: Seq<u32>,
    target: u32,
    value: Seq<u8>,
    body: Seq<u8>,
)
    requires
        around.has_none(key),
        0 <= key < 0x1_0000_0000,
        key % 8 == 2,
        key / 8 == (if path.len() > 0 {
            path[0]
        } else {
            target
        }),
        old_body.len() < two_64(),
        rewritten_body(Field { key, body: old_body }, path, target, value) == Some(body),
    ensures
        rewritten(around.with(key, old_body), path, target, value) == Some(around.with(key, body)),
{
    let hit = Field { key, body: old_body };
    let all = around.before.push(hit) + around.behind;
    let n = around.before.len() as int;
    assert forall|i: int| 0 <= i < around.before.len() implies !is_hit(
        #[trigger] around.before[i],
        path,
        target,
    ) by {
        lemma_key(around.before[i].key, key);
    }
    assert forall|i: int| 0 <= i < around.behind.len() implies !is_hit(
        #[trigger] around.behind[i],
        path,
        target,
    ) by {
        lemma_key(around.behind[i].key, key);
    }
    assert forall|i: int| 0 <= i < all.len() implies is_field(#[trigger] all[i]) by {
        if i < n {
            assert(all[i] == around.before[i]);
        } else if i > n {
            assert(all[i] == around.behind[i - n - 1]);
        } else {
            assert(0 <= key < two_64());
        }
    }
    message_reads_back(all);
    lemma_one_changes(around.before, hit, around.behind, path, target, value, body);
    lemma_key(key, key);
    assert(all[n] == hit);
    assert(is_hit(all[n], path, target));
}

/// A short key is its field number and its wire type.
proof fn lemma_key(a: int, b: int)
    requires
        0 <= a < 0x1_0000_0000,
        0 <= b < 0x1_0000_0000,
    ensures
        (a / 8) % 0x1_0000_0000 == a / 8,
        a % 8 == b % 8 && a / 8 == b / 8 ==> a == b,
{
}

/// The model name stands in field 6 of field 1 of field 2 of a signature, each of them
/// length-delimited: with the keys 50, 10 and 18. A new name takes its place, and all else stays.
pub proof fn the_model_name_is_exchanged(
    signature: Seq<char>,
    outer: Around,
    middle: Around,
    inner: Around,
    name: Seq<u8>,
    model: Seq<char>,
)
    requires
        signature.len() > 0,
        outer.has_none(18),
        middle.has_none(10),
        inner.has_none(50),
        base64_bytes(signature) == Some(outer.with(18, middle.with(10, inner.with(50, name)))),
        name.len() < two_64(),
        inner.with(50, name).len() < two_64(),
        middle.with(10, inner.with(50, name)).len() < two_64(),
    ensures
        signature_with_model(signature, model) == Some(
            base64_text(outer.with(18, middle.with(10, inner.with(50, text::bytes_of(model))))),
        ),
{
    let value = text::bytes_of(model);
    let path = seq![2u32, 1u32];
    let one = path.subrange(1, 2);
    let none = one.subrange(1, 1);
    assert(one[0] == 1u32);
    lemma_rewritten_within(inner, 50, name, none, 6, value, value);
    lemma_rewritten_within(
        middle,
        10,
        inner.with(50, name),
        one,
        6,
        value,
        inner.with(50, value),
    );
    lemma_rewritten_within(
        outer,
        18,
        middle.with(10, inner.with(50, name)),
        path,
        6,
        value,
        middle.with(10, inner.with(50, value)),
    );
}

/// What is no Base64 text, or no message with a model name, is no signature.
pub proof fn other_texts_are_no_signatures(signature: Seq<char>, model: Seq<char>)
    ensures
        signature.len() == 0 ==> signature_with_model(signature, model) is None,
        base64_bytes(signature) is None ==> signature_with_model(signature, model) is None,
        base64_bytes(signature) matches Some(raw) ==> (fields_from(raw, 0) matches Some(fields)
            ==> ((forall|i: int| 0 <= i < fields.len() ==> (#[trigger] fields[i]).key % 8 != 2)
            ==> signature_with_model(signature, model) is None)),
{
    let path = seq![2u32, 1u32];
    if let Some(raw) = base64_bytes(signature) {
        if let Some(fields) = fields_from(raw, 0) {
            if forall|i: int| 0 <= i < fields.len() ==> (#[trigger] fields[i]).key % 8 != 2 {
                assert forall|i: int| 0 <= i < fields.len() implies !is_hit(
                    #[trigger] fields[i],
                    path,
                    6,
                ) by {}
            }
        }
    }
}

} // verus!
