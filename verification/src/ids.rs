//! Random identifiers.

use vstd::prelude::*;
use vstd::string::*;

verus! {

/// The lower case hexadecimal digits.
pub open spec fn is_hex_digit(c: char) -> bool {
    '0' <= c <= '9' || 'a' <= c <= 'f'
}

/// The hyphenated text form of a UUID: groups of 8, 4, 4, 4 and 12 hexadecimal digits.
pub open spec fn is_uuid_text(s: Seq<char>) -> bool {
    &&& s.len() == 36
    &&& forall|i: int|
        0 <= i < 36 ==> if i == 8 || i == 13 || i == 18 || i == 23 {
            #[trigger] s[i] == '-'
        } else {
            is_hex_digit(s[i])
        }
}

/// `s` without its hyphens.
pub open spec fn without_hyphens(s: Seq<char>) -> Seq<char>
    decreases s.len(),
{
    if s.len() == 0 {
        s
    } else if s.last() == '-' {
        without_hyphens(s.drop_last())
    } else {
        without_hyphens(s.drop_last()).push(s.last())
    }
}

/// The identifier of a message that is made from the UUID `uuid`.
pub open spec fn message_id_model(uuid: Seq<char>) -> Seq<char> {
    "msg_"@ + without_hyphens(uuid)
}

/// `Uuid::new_v4` of `uuid`, in its text form. Which UUID comes is left to chance.
#[verifier::external_body]
pub(crate) fn new_uuid() -> (r: String)
    ensures
        is_uuid_text(r@),
{
    uuid::Uuid::new_v4().to_string()
}

/// Removes the hyphens.
pub fn remove_hyphens(s: &str) -> (r: String)
    ensures
        r@ == without_hyphens(s@),
{
    let total: usize = s.unicode_len();
    let mut out = String::new();
    let mut i: usize = 0;
    while i < total
        invariant
            total == s@.len(),
            i <= total,
            out@ == without_hyphens(s@.take(i as int)),
        decreases total - i,
    {
        let ghost before = out@;
        proof {
            assert(s@.take(i + 1).drop_last() =~= s@.take(i as int));
        }
        if s.get_char(i) != '-' {
            out.append(s.substring_char(i, i + 1));
            proof {
                assert(out@ =~= before.push(s@[i as int]));
            }
        }
        i = i + 1;
    }
    proof {
        assert(s@.take(total as int) =~= s@);
    }
    out
}

/// The identifier of a message that is made from the UUID `uuid`.
pub fn message_id(uuid: &str) -> (r: String)
    ensures
        r@ == message_id_model(uuid@),
{
    let mut id = "msg_".to_owned();
    let digits = remove_hyphens(uuid);
    id.append(digits.as_str());
    id
}

proof fn lemma_without_hyphens_split(a: Seq<char>, b: Seq<char>)
    ensures
        without_hyphens(a + b) == without_hyphens(a) + without_hyphens(b),
    decreases b.len(),
{
    if b.len() == 0 {
        assert(a + b =~= a);
        assert(without_hyphens(a) + without_hyphens(b) =~= without_hyphens(a));
    } else {
        lemma_without_hyphens_split(a, b.drop_last());
        assert((a + b).drop_last() =~= a + b.drop_last());
        assert(without_hyphens(a + b) =~= without_hyphens(a) + without_hyphens(b));
    }
}

proof fn lemma_no_hyphens(s: Seq<char>)
    requires
        forall|i: int| 0 <= i < s.len() ==> is_hex_digit(#[trigger] s[i]),
    ensures
        without_hyphens(s) == s,
    decreases s.len(),
{
    if s.len() > 0 {
        assert(is_hex_digit(s[s.len() - 1]));
        lemma_no_hyphens(s.drop_last());
        assert(s.drop_last().push(s.last()) =~= s);
    }
}

proof fn lemma_one_hyphen(s: Seq<char>)
    requires
        s.len() == 1,
        s[0] == '-',
    ensures
        without_hyphens(s) == Seq::<char>::empty(),
{
    assert(s.drop_last() =~= Seq::<char>::empty());
    assert(without_hyphens(s.drop_last()) =~= Seq::<char>::empty());
}

/// A message identifier is `msg_` and 32 hexadecimal digits.
pub proof fn message_id_form(uuid: Seq<char>)
    requires
        is_uuid_text(uuid),
    ensures
        message_id_model(uuid).len() == 36,
        forall|i: int| 4 <= i < 36 ==> is_hex_digit(#[trigger] message_id_model(uuid)[i]),
{
    lemma_message_id(uuid);
    reveal_strlit("msg_");
}

/// A message identifier holds the digits of its UUID in their order, so that different UUIDs give
/// different identifiers.
pub proof fn message_ids_hold_the_digits(uuid: Seq<char>, other: Seq<char>)
    requires
        is_uuid_text(uuid),
        is_uuid_text(other),
    ensures
        message_id_model(uuid) == "msg_"@ + uuid.subrange(0, 8) + uuid.subrange(9, 13)
            + uuid.subrange(14, 18) + uuid.subrange(19, 23) + uuid.subrange(24, 36),
        message_id_model(uuid) == message_id_model(other) ==> uuid == other,
{
    lemma_message_id(uuid);
    lemma_message_id(other);
    let x = message_id_model(uuid);
    let y = message_id_model(other);
    if x == y {
        reveal_strlit("msg_");
        assert forall|i: int| 0 <= i < 36 implies uuid[i] == other[i] by {
            assert(x[4 + i] == y[4 + i] || i >= 32);
            if i < 8 {
                assert(x[4 + i] == uuid[i] && y[4 + i] == other[i]);
            } else if 9 <= i < 13 {
                assert(x[3 + i] == uuid[i] && y[3 + i] == other[i]);
            } else if 14 <= i < 18 {
                assert(x[2 + i] == uuid[i] && y[2 + i] == other[i]);
            } else if 19 <= i < 23 {
                assert(x[1 + i] == uuid[i] && y[1 + i] == other[i]);
            } else if 24 <= i {
                assert(x[i] == uuid[i] && y[i] == other[i]);
            } else {
                assert(uuid[i] == '-' && other[i] == '-');
            }
        }
        assert(uuid =~= other);
    }
}

proof fn lemma_message_id(uuid: Seq<char>)
    requires
        is_uuid_text(uuid),
    ensures
        message_id_model(uuid) == "msg_"@ + uuid.subrange(0, 8) + uuid.subrange(9, 13)
            + uuid.subrange(14, 18) + uuid.subrange(19, 23) + uuid.subrange(24, 36),
{
    let a = uuid.subrange(0, 8);
    let b = uuid.subrange(9, 13);
    let c = uuid.subrange(14, 18);
    let d = uuid.subrange(19, 23);
    let e = uuid.subrange(24, 36);
    let h = seq!['-'];
    lemma_no_hyphens(a);
    lemma_no_hyphens(b);
    lemma_no_hyphens(c);
    lemma_no_hyphens(d);
    lemma_no_hyphens(e);
    lemma_one_hyphen(h);
    assert(uuid[8] == '-' && uuid[13] == '-' && uuid[18] == '-' && uuid[23] == '-');
    assert(uuid =~= a + h + b + h + c + h + d + h + e);
    lemma_without_hyphens_split(a + h + b + h + c + h + d + h, e);
    lemma_without_hyphens_split(a + h + b + h + c + h + d, h);
    lemma_without_hyphens_split(a + h + b + h + c + h, d);
    lemma_without_hyphens_split(a + h + b + h + c, h);
    lemma_without_hyphens_split(a + h + b + h, c);
    lemma_without_hyphens_split(a + h + b, h);
    lemma_without_hyphens_split(a + h, b);
    lemma_without_hyphens_split(a, h);
    assert(message_id_model(uuid) =~= "msg_"@ + a + b + c + d + e);
}

} // verus!
