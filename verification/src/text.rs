//! Text primitives: UTF-8 aware splitting, searching, trimming and number formatting.
//!
//! Text is modelled by its characters (`Seq<char>`). Positions are byte offsets into the UTF-8
//! encoding, as they are for `str`.

use vstd::prelude::*;
use vstd::string::*;
use vstd::utf8::*;

verus! {

broadcast use vstd::utf8::group_utf8_lib;

/// The UTF-8 bytes of `s`.
pub open spec fn bytes_of(s: Seq<char>) -> Seq<u8> {
    encode_utf8(s)
}

/// The text in front of byte offset `mid`.
pub open spec fn text_before(s: Seq<char>, mid: int) -> Seq<char> {
    decode_utf8(bytes_of(s).subrange(0, mid))
}

/// The text from byte offset `mid` on.
pub open spec fn text_from(s: Seq<char>, mid: int) -> Seq<char> {
    decode_utf8(bytes_of(s).subrange(mid, bytes_of(s).len() as int))
}

/// The bytes `needle` stand in `hay` at offset `at`.
pub open spec fn occurs_at(hay: Seq<u8>, needle: Seq<u8>, at: int) -> bool {
    &&& 0 <= at
    &&& at + needle.len() <= hay.len()
    &&& hay.subrange(at, at + needle.len()) == needle
}

/// The characters with the Unicode property `White_Space`.
pub open spec fn is_space(c: char) -> bool {
    let u = c as u32;
    ||| 0x09 <= u <= 0x0d
    ||| u == 0x20
    ||| u == 0x85
    ||| u == 0xa0
    ||| u == 0x1680
    ||| 0x2000 <= u <= 0x200a
    ||| u == 0x2028
    ||| u == 0x2029
    ||| u == 0x202f
    ||| u == 0x205f
    ||| u == 0x3000
}

/// Every character of `s` is white space.
pub open spec fn is_blank(s: Seq<char>) -> bool {
    forall|i: int| 0 <= i < s.len() ==> is_space(#[trigger] s[i])
}

/// `s` without its leading white space.
pub open spec fn trimmed_start(s: Seq<char>) -> Seq<char>
    decreases s.len(),
{
    if s.len() > 0 && is_space(s[0]) {
        trimmed_start(s.subrange(1, s.len() as int))
    } else {
        s
    }
}

/// `s` without its trailing white space.
pub open spec fn trimmed_end(s: Seq<char>) -> Seq<char>
    decreases s.len(),
{
    if s.len() > 0 && is_space(s.last()) {
        trimmed_end(s.drop_last())
    } else {
        s
    }
}

/// `s` without white space at either end.
pub open spec fn trimmed(s: Seq<char>) -> Seq<char> {
    trimmed_end(trimmed_start(s))
}

/// Two texts with the same bytes are the same text.
pub proof fn lemma_bytes_determine_text(a: Seq<char>, b: Seq<char>)
    requires
        bytes_of(a) == bytes_of(b),
    ensures
        a == b,
{
    encode_utf8_decode_utf8(a);
    encode_utf8_decode_utf8(b);
}

/// The bytes of a concatenation are the concatenated bytes.
pub proof fn lemma_bytes_of_concat(a: Seq<char>, b: Seq<char>)
    ensures
        bytes_of(a + b) == bytes_of(a) + bytes_of(b),
    decreases a.len(),
{
    if a.len() == 0 {
        assert(a + b =~= b);
        assert(bytes_of(a) + bytes_of(b) =~= bytes_of(b));
    } else {
        lemma_bytes_of_concat(a.drop_first(), b);
        assert((a + b).drop_first() =~= a.drop_first() + b);
        assert((a + b)[0] == a[0]);
        assert(bytes_of(a + b) =~= bytes_of(a) + bytes_of(b));
    }
}

/// A byte below 0x80 is a whole character: the offsets before and after it are boundaries.
pub proof fn lemma_ascii_boundaries(s: Seq<char>, at: int)
    requires
        0 <= at < bytes_of(s).len(),
        bytes_of(s)[at] < 0x80,
    ensures
        is_char_boundary(bytes_of(s), at),
        is_char_boundary(bytes_of(s), at + 1),
    decreases s.len(),
{
    let b = bytes_of(s);
    encode_utf8_valid_utf8(s);
    encode_utf8_first_scalar(s);
    let rest = s.drop_first();
    let first = encode_scalar(s[0] as u32);
    char_is_scalar(s[0]);
    encode_utf8_valid_utf8(rest);
    assert(pop_first_scalar(b) =~= bytes_of(rest));
    assert(b =~= first + bytes_of(rest));
    reveal_with_fuel(is_char_boundary, 2);
    if at < first.len() {
        assert(b[at] == first[at]);
        lemma_encoded_scalar_bytes(s[0] as u32);
        assert(at == 0 && first.len() == 1);
        is_char_boundary_start_end_of_seq(bytes_of(rest));
    } else {
        assert(b[at] == bytes_of(rest)[at - first.len()]);
        lemma_ascii_boundaries(rest, at - first.len());
    }
}

proof fn lemma_encoded_scalar_bytes(u: u32)
    requires
        is_scalar(u),
    ensures
        forall|i: int| 0 <= i < encode_scalar(u).len() && #[trigger] encode_scalar(u)[i] < 0x80
            ==> encode_scalar(u).len() == 1,
{
    if has_width_1_encoding(u) {
    } else if has_width_2_encoding(u) {
        assert(leading_byte_width_2(u) >= 0x80 && last_continuation_byte(u) >= 0x80) by (bit_vector)
            requires
                has_width_2_encoding(u),
        ;
    } else if has_width_3_encoding(u) {
        assert(leading_byte_width_3(u) >= 0x80 && second_last_continuation_byte(u) >= 0x80
            && last_continuation_byte(u) >= 0x80) by (bit_vector)
            requires
                has_width_3_encoding(u),
        ;
    } else {
        assert(leading_byte_width_4(u) >= 0x80 && third_last_continuation_byte(u) >= 0x80
            && second_last_continuation_byte(u) >= 0x80 && last_continuation_byte(u) >= 0x80)
            by (bit_vector)
            requires
                has_width_4_encoding(u),
        ;
    }
}

/// The parts around a character boundary make up the text, and their bytes its bytes.
pub proof fn lemma_split(s: Seq<char>, mid: int)
    requires
        is_char_boundary(bytes_of(s), mid),
    ensures
        text_before(s, mid) + text_from(s, mid) == s,
        bytes_of(text_before(s, mid)) == bytes_of(s).subrange(0, mid),
        bytes_of(text_from(s, mid)) == bytes_of(s).subrange(mid, bytes_of(s).len() as int),
{
    let b = bytes_of(s);
    encode_utf8_valid_utf8(s);
    valid_utf8_split(b, mid);
    decode_utf8_split(b, mid);
    decode_utf8_encode_utf8(b.subrange(0, mid));
    decode_utf8_encode_utf8(b.subrange(mid, b.len() as int));
    encode_utf8_decode_utf8(s);
}

/// The parts of a concatenation around the seam.
pub proof fn lemma_split_concat(a: Seq<char>, b: Seq<char>)
    ensures
        is_char_boundary(bytes_of(a + b), bytes_of(a).len() as int),
        text_before(a + b, bytes_of(a).len() as int) == a,
        text_from(a + b, bytes_of(a).len() as int) == b,
{
    let n = bytes_of(a).len() as int;
    let all = bytes_of(a + b);
    lemma_bytes_of_concat(a, b);
    encode_utf8_valid_utf8(a);
    encode_utf8_valid_utf8(b);
    encode_utf8_valid_utf8(a + b);
    encode_utf8_decode_utf8(a);
    encode_utf8_decode_utf8(b);
    assert(all.subrange(0, n) =~= bytes_of(a));
    assert(all.subrange(n, all.len() as int) =~= bytes_of(b));
    lemma_seam_is_boundary(a, b);
}

proof fn lemma_seam_is_boundary(a: Seq<char>, b: Seq<char>)
    ensures
        is_char_boundary(bytes_of(a + b), bytes_of(a).len() as int),
    decreases a.len(),
{
    let all = bytes_of(a + b);
    encode_utf8_valid_utf8(a + b);
    is_char_boundary_start_end_of_seq(all);
    if a.len() == 0 {
    } else {
        let rest = a.drop_first();
        assert((a + b).drop_first() =~= rest + b);
        lemma_seam_is_boundary(rest, b);
        lemma_bytes_of_concat(a, b);
        lemma_bytes_of_concat(rest, b);
        encode_utf8_first_scalar(a + b);
        encode_utf8_first_scalar(a);
        let first = encode_scalar(a[0] as u32);
        char_is_scalar(a[0]);
        encode_utf8_valid_utf8(rest + b);
        assert(pop_first_scalar(all) =~= bytes_of(rest + b));
        assert(bytes_of(a) =~= first + bytes_of(rest));
        reveal_with_fuel(is_char_boundary, 2);
    }
}

/// A text that is not empty has bytes.
pub proof fn lemma_bytes_nonempty(s: Seq<char>)
    ensures
        s.len() > 0 ==> bytes_of(s).len() > 0,
        s.len() == 0 ==> bytes_of(s).len() == 0,
{
    if s.len() > 0 {
        encode_utf8_first_scalar(s);
        char_is_scalar(s[0]);
    }
}

/// Of two beginnings of the same text, the one with fewer bytes has no more characters.
pub proof fn lemma_shorter_beginning(a: Seq<char>, b: Seq<char>, x: Seq<char>, y: Seq<char>)
    requires
        a + b == x + y,
        bytes_of(x).len() <= bytes_of(a).len(),
    ensures
        x.len() <= a.len(),
        x == a.take(x.len() as int),
        y == a.skip(x.len() as int) + b,
{
    let all = a + b;
    if x.len() > a.len() {
        let more = x.skip(a.len() as int);
        assert(x =~= a + more) by {
            assert forall|i: int| 0 <= i < x.len() implies x[i] == (a + more)[i] by {
                assert(all[i] == x[i]);
            }
        }
        lemma_bytes_of_concat(a, more);
        lemma_bytes_nonempty(more);
    }
    assert forall|i: int| 0 <= i < x.len() implies x[i] == a[i] by {
        assert(all[i] == x[i]);
        assert(all[i] == a[i]);
    }
    assert(x =~= a.take(x.len() as int));
    assert(all.skip(x.len() as int) =~= y);
    assert(all.skip(x.len() as int) =~= a.skip(x.len() as int) + b);
}

/// White space has no byte of a printable ASCII character.
pub proof fn lemma_blank_bytes(s: Seq<char>, at: int)
    requires
        is_blank(s),
        0 <= at < bytes_of(s).len(),
    ensures
        bytes_of(s)[at] <= 0x20 || bytes_of(s)[at] >= 0x80,
    decreases s.len(),
{
    lemma_bytes_nonempty(s);
    let rest = s.drop_first();
    encode_utf8_first_scalar(s);
    let u = s[0] as u32;
    char_is_scalar(s[0]);
    let first = encode_scalar(u);
    assert(bytes_of(s) =~= first + bytes_of(rest));
    assert(is_space(s[0]));
    if at < first.len() {
        lemma_encoded_scalar_bytes(u);
        if first[at] < 0x80 {
            assert(has_width_1_encoding(u));
            assert(u <= 0x20);
            assert(leading_byte_width_1(u) <= 0x20) by (bit_vector)
                requires
                    u <= 0x20,
            ;
        }
    } else {
        assert(is_blank(rest)) by {
            assert forall|i: int| 0 <= i < rest.len() implies is_space(#[trigger] rest[i]) by {
                assert(rest[i] == s[i + 1]);
            }
        }
        lemma_blank_bytes(rest, at - first.len());
    }
}

/// The two parts of `s` around byte offset `mid`, as owned text.
pub fn split_text(s: &str, mid: usize) -> (r: (String, String))
    requires
        is_char_boundary(bytes_of(s@), mid as int),
    ensures
        r.0@ == text_before(s@, mid as int),
        r.1@ == text_from(s@, mid as int),
        r.0@ + r.1@ == s@,
        bytes_of(r.0@) == bytes_of(s@).subrange(0, mid as int),
        bytes_of(r.1@) == bytes_of(s@).subrange(mid as int, bytes_of(s@).len() as int),
{
    let (a, b) = s.split_at(mid);
    proof {
        encode_utf8_valid_utf8(s@);
        decode_utf8_split(bytes_of(s@), mid as int);
        encode_utf8_decode_utf8(a@);
        encode_utf8_decode_utf8(b@);
        encode_utf8_decode_utf8(s@);
    }
    (a.to_owned(), b.to_owned())
}

/// Whether two texts are the same.
pub fn same_text(a: &str, b: &str) -> (r: bool)
    ensures
        r == (a@ == b@),
{
    let x = a.as_bytes();
    let y = b.as_bytes();
    if x.len() != y.len() {
        return false;
    }
    let mut i: usize = 0;
    while i < x.len()
        invariant
            x@ == bytes_of(a@),
            y@ == bytes_of(b@),
            x.len() == y.len(),
            i <= x.len(),
            forall|j: int| 0 <= j < i ==> x@[j] == y@[j],
        decreases x.len() - i,
    {
        if x[i] != y[i] {
            return false;
        }
        i = i + 1;
    }
    proof {
        assert(x@ =~= y@);
        lemma_bytes_determine_text(a@, b@);
    }
    true
}

/// Whether `needle` stands in `hay` at offset `at`.
pub fn bytes_at(hay: &[u8], needle: &[u8], at: usize) -> (r: bool)
    ensures
        r == occurs_at(hay@, needle@, at as int),
{
    if at > hay.len() || hay.len() - at < needle.len() {
        return false;
    }
    let mut i: usize = 0;
    while i < needle.len()
        invariant
            at <= hay.len(),
            needle.len() <= hay.len() - at,
            i <= needle.len(),
            forall|j: int| 0 <= j < i ==> hay@[at + j] == needle@[j],
        decreases needle.len() - i,
    {
        if hay[at + i] != needle[i] {
            proof {
                if hay@.subrange(at as int, at + needle@.len()) == needle@ {
                    assert(hay@.subrange(at as int, at + needle@.len())[i as int] == needle@[i as int]);
                }
            }
            return false;
        }
        i = i + 1;
    }
    proof {
        assert(hay@.subrange(at as int, at + needle@.len()) =~= needle@);
    }
    true
}

/// The first offset not below `from` at which `needle` stands in `hay`.
pub fn find_bytes(hay: &[u8], needle: &[u8], from: usize) -> (r: Option<usize>)
    ensures
        match r {
            Some(p) => {
                &&& from <= p
                &&& occurs_at(hay@, needle@, p as int)
                &&& forall|q: int| from <= q < p ==> !occurs_at(hay@, needle@, q)
            },
            None => forall|q: int| from <= q ==> !occurs_at(hay@, needle@, q),
        },
{
    if needle.len() > hay.len() {
        return None;
    }
    let last: usize = hay.len() - needle.len();
    let mut p: usize = from;
    while p <= last
        invariant
            needle.len() <= hay.len(),
            last == hay.len() - needle.len(),
            from <= p,
            forall|q: int| from <= q < p ==> !occurs_at(hay@, needle@, q),
        decreases last + 1 - p,
    {
        if bytes_at(hay, needle, p) {
            return Some(p);
        }
        if p == usize::MAX {
            return None;
        }
        p = p + 1;
    }
    None
}

/// Whether `needle` occurs in `hay`, as bytes.
pub open spec fn contains_bytes(hay: Seq<u8>, needle: Seq<u8>) -> bool {
    exists|p: int| occurs_at(hay, needle, p)
}

/// Whether the text `needle` occurs in the text `hay`.
pub fn text_contains(hay: &str, needle: &str) -> (r: bool)
    ensures
        r == contains_bytes(bytes_of(hay@), bytes_of(needle@)),
{
    find_bytes(hay.as_bytes(), needle.as_bytes(), 0).is_some()
}

/// Whether `c` is white space.
pub fn char_is_space(c: char) -> (r: bool)
    ensures
        r == is_space(c),
{
    let u: u32 = c as u32;
    (0x09 <= u && u <= 0x0d) || u == 0x20 || u == 0x85 || u == 0xa0 || u == 0x1680
        || (0x2000 <= u && u <= 0x200a) || u == 0x2028 || u == 0x2029 || u == 0x202f
        || u == 0x205f || u == 0x3000
}

/// Whether `s` consists of white space only.
pub fn text_is_blank(s: &str) -> (r: bool)
    ensures
        r == is_blank(s@),
{
    for c in it: s.chars()
        invariant
            it.seq() == s@,
            forall|j: int| 0 <= j < it.index() ==> is_space(#[trigger] s@[j]),
    {
        if !char_is_space(c) {
            assert(!is_space(s@[it.index() as int]));
            return false;
        }
    }
    true
}

proof fn lemma_trimmed_start(s: Seq<char>, n: int)
    requires
        0 <= n <= s.len(),
        forall|j: int| 0 <= j < n ==> is_space(#[trigger] s[j]),
        n == s.len() || !is_space(s[n]),
    ensures
        trimmed_start(s) == s.subrange(n, s.len() as int),
    decreases n,
{
    if n == 0 {
        assert(s.subrange(0, s.len() as int) =~= s);
    } else {
        let t = s.subrange(1, s.len() as int);
        assert(is_space(s[0]));
        assert forall|j: int| 0 <= j < n - 1 implies is_space(#[trigger] t[j]) by {
            assert(t[j] == s[j + 1]);
        }
        lemma_trimmed_start(t, n - 1);
        assert(t.subrange(n - 1, t.len() as int) =~= s.subrange(n, s.len() as int));
    }
}

proof fn lemma_trimmed_end(s: Seq<char>, n: int)
    requires
        0 <= n <= s.len(),
        forall|j: int| n <= j < s.len() ==> is_space(#[trigger] s[j]),
        n == 0 || !is_space(s[n - 1]),
    ensures
        trimmed_end(s) == s.subrange(0, n),
    decreases s.len(),
{
    if n == s.len() {
        assert(s.subrange(0, n) =~= s);
    } else {
        assert(is_space(s[s.len() - 1]));
        lemma_trimmed_end(s.drop_last(), n);
        assert(s.drop_last().subrange(0, n) =~= s.subrange(0, n));
    }
}

/// Trimming leaves nothing exactly of a blank text.
pub proof fn lemma_blank_iff_trims_to_nothing(s: Seq<char>)
    ensures
        is_blank(s) <==> trimmed(s).len() == 0,
        is_blank(s) <==> trimmed_start(s).len() == 0,
    decreases s.len(),
{
    if s.len() > 0 && is_space(s[0]) {
        let t = s.subrange(1, s.len() as int);
        lemma_blank_iff_trims_to_nothing(t);
        if is_blank(t) {
            assert forall|j: int| 0 <= j < s.len() implies is_space(#[trigger] s[j]) by {
                if j > 0 {
                    assert(s[j] == t[j - 1]);
                }
            }
        }
        if is_blank(s) {
            assert forall|j: int| 0 <= j < t.len() implies is_space(#[trigger] t[j]) by {
                assert(t[j] == s[j + 1]);
            }
        }
    } else if s.len() > 0 {
        lemma_trimmed_end_keeps_front(s);
    }
}

proof fn lemma_trimmed_end_keeps_front(s: Seq<char>)
    requires
        s.len() > 0,
        !is_space(s[0]),
    ensures
        trimmed_end(s).len() > 0,
    decreases s.len(),
{
    if is_space(s.last()) {
        lemma_trimmed_end_keeps_front(s.drop_last());
    }
}

/// The number of leading white space characters.
fn leading_spaces(s: &str) -> (n: usize)
    ensures
        n <= s@.len(),
        forall|j: int| 0 <= j < n ==> is_space(#[trigger] s@[j]),
        n == s@.len() || !is_space(s@[n as int]),
{
    let total: usize = s.unicode_len();
    let mut n: usize = 0;
    for c in it: s.chars()
        invariant
            it.seq() == s@,
            n == it.index(),
            total == s@.len(),
            forall|j: int| 0 <= j < it.index() ==> is_space(#[trigger] s@[j]),
    {
        if !char_is_space(c) {
            return n;
        }
        n = n + 1;
    }
    n
}

/// `s` without its leading white space.
pub fn trim_start(s: &str) -> (r: String)
    ensures
        r@ == trimmed_start(s@),
{
    let n: usize = leading_spaces(s);
    proof {
        lemma_trimmed_start(s@, n as int);
    }
    s.substring_char(n, s.unicode_len()).to_owned()
}

/// `s` without white space at either end.
pub fn trim(s: &str) -> (r: String)
    ensures
        r@ == trimmed(s@),
{
    let n: usize = leading_spaces(s);
    let total: usize = s.unicode_len();
    let t = s.substring_char(n, total);
    proof {
        lemma_trimmed_start(s@, n as int);
    }
    let mut end: usize = 0;
    let mut seen: usize = 0;
    for c in it: t.chars()
        invariant
            it.seq() == t@,
            seen == it.index(),
            t@.len() == total - n,
            end <= seen,
            forall|j: int| end <= j < it.index() ==> is_space(#[trigger] t@[j]),
            end == 0 || !is_space(t@[end - 1]),
    {
        seen = seen + 1;
        if !char_is_space(c) {
            end = seen;
        }
    }
    proof {
        lemma_trimmed_end(t@, end as int);
    }
    t.substring_char(0, end).to_owned()
}

/// The decimal digit `d`.
pub open spec fn digit_char(d: nat) -> char {
    (('0' as u32) + d) as char
}

/// `n` in decimal notation.
pub open spec fn decimal(n: nat) -> Seq<char>
    decreases n,
{
    if n < 10 {
        seq![digit_char(n)]
    } else {
        decimal(n / 10).push(digit_char(n % 10))
    }
}

/// Decimal notation holds digits alone, at least one, and none of them leads with 0 but that of 0.
pub proof fn decimals_are_digits(n: nat)
    ensures
        decimal(n).len() > 0,
        forall|i: int| 0 <= i < decimal(n).len() ==> '0' <= #[trigger] decimal(n)[i] <= '9',
        n > 0 ==> decimal(n)[0] != '0',
        decimal(n).last() as nat - '0' as nat == n % 10,
    decreases n,
{
    if n >= 10 {
        decimals_are_digits(n / 10);
    }
}

/// Different numbers have different decimal notations.
pub proof fn decimals_tell_numbers_apart(a: nat, b: nat)
    requires
        decimal(a) == decimal(b),
    ensures
        a == b,
    decreases a,
{
    decimals_are_digits(a);
    decimals_are_digits(b);
    if a >= 10 {
        decimals_are_digits(a / 10);
    }
    if b >= 10 {
        decimals_are_digits(b / 10);
    }
    if a >= 10 && b >= 10 {
        assert(decimal(a).drop_last() =~= decimal(a / 10));
        assert(decimal(b).drop_last() =~= decimal(b / 10));
        decimals_tell_numbers_apart(a / 10, b / 10);
    }
}

fn digit_text(d: u64) -> (r: &'static str)
    requires
        d < 10,
    ensures
        r@ == seq![digit_char(d as nat)],
{
    proof {
        reveal_strlit("0");
        reveal_strlit("1");
        reveal_strlit("2");
        reveal_strlit("3");
        reveal_strlit("4");
        reveal_strlit("5");
        reveal_strlit("6");
        reveal_strlit("7");
        reveal_strlit("8");
        reveal_strlit("9");
    }
    if d == 0 {
        "0"
    } else if d == 1 {
        "1"
    } else if d == 2 {
        "2"
    } else if d == 3 {
        "3"
    } else if d == 4 {
        "4"
    } else if d == 5 {
        "5"
    } else if d == 6 {
        "6"
    } else if d == 7 {
        "7"
    } else if d == 8 {
        "8"
    } else {
        "9"
    }
}

/// `n` in decimal notation.
pub fn decimal_text(n: u64) -> (r: String)
    ensures
        r@ == decimal(n as nat),
    decreases n,
{
    if n < 10 {
        digit_text(n).to_owned()
    } else {
        let mut s = decimal_text(n / 10);
        s.append(digit_text(n % 10));
        proof {
            assert(s@ =~= decimal(n as nat / 10).push(digit_char(n as nat % 10)));
        }
        s
    }
}

/// `n` in decimal notation, with its sign where it is negative.
pub open spec fn signed_decimal(n: int) -> Seq<char> {
    if n < 0 {
        "-"@ + decimal((-n) as nat)
    } else {
        decimal(n as nat)
    }
}

/// `n` in decimal notation, with its sign where it is negative.
pub fn signed_decimal_text(n: i64) -> (r: String)
    ensures
        r@ == signed_decimal(n as int),
{
    if n < 0 {
        let mut s = "-".to_owned();
        s.append(decimal_text((-(n as i128)) as u64).as_str());
        s
    } else {
        decimal_text(n as u64)
    }
}

/// The texts of a list.
pub open spec fn texts(list: Seq<String>) -> Seq<Seq<char>> {
    list.map_values(|s: String| s@)
}

/// Whether `list` holds the text `s`.
pub fn contains_text(list: &Vec<String>, s: &str) -> (r: bool)
    ensures
        r == texts(list@).contains(s@),
{
    let mut i: usize = 0;
    while i < list.len()
        invariant
            i <= list@.len(),
            forall|j: int| 0 <= j < i ==> #[trigger] texts(list@)[j] != s@,
        decreases list@.len() - i,
    {
        assert(texts(list@)[i as int] == list@[i as int]@);
        if same_text(list[i].as_str(), s) {
            return true;
        }
        i = i + 1;
    }
    false
}

/// White space in ASCII: the space, and what stands from the tab to the carriage return. No letter,
/// no digit and no punctuation is.
pub proof fn ascii_white_space(c: char)
    ensures
        c == ' ' || c == '\t' || c == '\n' || c == '\r' || c == '\u{b}' || c == '\u{c}' ==> is_space(
            c,
        ),
        '!' <= c <= '~' ==> !is_space(c),
        c == '\u{a0}' || c == '\u{3000}' || c == '\u{2003}' || c == '\u{85}' || c == '\u{2028}'
            ==> is_space(c),
        '\u{4e00}' <= c ==> !is_space(c),
{
}

proof fn lemma_trimmed_start_skips(blank: Seq<char>, s: Seq<char>)
    requires
        is_blank(blank),
    ensures
        trimmed_start(blank + s) == trimmed_start(s),
    decreases blank.len(),
{
    if blank.len() == 0 {
        assert(blank + s =~= s);
    } else {
        let rest = blank.subrange(1, blank.len() as int);
        assert(is_blank(rest)) by {
            assert forall|i: int| 0 <= i < rest.len() implies is_space(#[trigger] rest[i]) by {
                assert(rest[i] == blank[i + 1]);
            }
        }
        lemma_trimmed_start_skips(rest, s);
        assert((blank + s).subrange(1, (blank + s).len() as int) =~= rest + s);
        assert(is_space(blank[0]));
        assert((blank + s)[0] == blank[0]);
    }
}

proof fn lemma_trimmed_end_skips(s: Seq<char>, blank: Seq<char>)
    requires
        is_blank(blank),
    ensures
        trimmed_end(s + blank) == trimmed_end(s),
    decreases blank.len(),
{
    if blank.len() == 0 {
        assert(s + blank =~= s);
    } else {
        let rest = blank.drop_last();
        assert(is_blank(rest)) by {
            assert forall|i: int| 0 <= i < rest.len() implies is_space(#[trigger] rest[i]) by {
                assert(rest[i] == blank[i]);
            }
        }
        lemma_trimmed_end_skips(s, rest);
        assert((s + blank).drop_last() =~= s + rest);
        assert(is_space(blank[blank.len() - 1]));
        assert((s + blank).last() == blank[blank.len() - 1]);
    }
}

/// Trimming takes the white space from both ends of a text and leaves what stands between; of white
/// space alone it leaves nothing.
pub proof fn trimming_leaves_what_stands_between(front: Seq<char>, s: Seq<char>, back: Seq<char>)
    requires
        is_blank(front),
        is_blank(back),
        s.len() > 0 ==> !is_space(s[0]) && !is_space(s[s.len() - 1]),
    ensures
        trimmed(front + s + back) == s,
        s.len() > 0 ==> trimmed_start(front + s + back) == s + back,
{
    assert(front + s + back =~= front + (s + back));
    lemma_trimmed_start_skips(front, s + back);
    if s.len() > 0 {
        assert((s + back)[0] == s[0]);
        lemma_trimmed_end_skips(s, back);
        assert(s.last() == s[s.len() - 1]);
    } else {
        assert(s + back =~= back + Seq::<char>::empty());
        lemma_trimmed_start_skips(back, Seq::empty());
        assert(s =~= Seq::<char>::empty());
    }
}

/// A negative number is written as its amount behind a minus sign.
pub proof fn negative_numbers_have_a_sign(n: nat)
    ensures
        signed_decimal(n as int) == decimal(n),
        n > 0 ==> signed_decimal(-(n as int)) == seq!['-'] + decimal(n),
{
    reveal_strlit("-");
    assert("-"@ =~= seq!['-']);
    if n > 0 {
        assert(signed_decimal(-(n as int)) =~= seq!['-'] + decimal(n));
    }
}

} // verus!
