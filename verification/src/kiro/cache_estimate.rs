//! What requests cost without a cache, per model.

use vstd::prelude::*;
use vstd::string::*;

use crate::text;

verus! {

/// The cost of a request without a cache, in units of 10^-8 credits: so much per input token and
/// so much per output token.
#[derive(Debug, Clone, Copy, PartialEq, Eq, Structural)]
pub struct Baseline {
    pub per_input_token: u32,
    pub per_output_token: u32,
}

/// A byte with its ASCII letter in lower case.
pub open spec fn lower_byte(b: u8) -> u8 {
    if 0x41 <= b <= 0x5a {
        (b + 0x20) as u8
    } else {
        b
    }
}

/// Bytes with their ASCII letters in lower case.
pub open spec fn lower(bytes: Seq<u8>) -> Seq<u8> {
    bytes.map_values(|b: u8| lower_byte(b))
}

/// The name of the model holds `word`, whatever the case of its letters.
pub open spec fn names(model: Seq<char>, word: Seq<char>) -> bool {
    text::contains_bytes(lower(text::bytes_of(model)), text::bytes_of(word))
}

/// The name of the model holds one of two words.
pub open spec fn names_either(model: Seq<char>, a: Seq<char>, b: Seq<char>) -> bool {
    names(model, a) || names(model, b)
}

/// What a model costs, where that is known. Thinking costs apart.
pub open spec fn baseline_model(model: Seq<char>) -> Option<Baseline> {
    let thinking = names(model, "thinking"@);
    if names(model, "opus"@) && (names_either(model, "4-8"@, "4.8"@) || names_either(
        model,
        "4-7"@,
        "4.7"@,
    )) {
        if thinking {
            Some(Baseline { per_input_token: 722, per_output_token: 40600 })
        } else {
            Some(Baseline { per_input_token: 837, per_output_token: 29600 })
        }
    } else if names(model, "opus"@) && names_either(model, "4-6"@, "4.6"@) {
        if thinking {
            Some(Baseline { per_input_token: 690, per_output_token: 21000 })
        } else {
            Some(Baseline { per_input_token: 553, per_output_token: 24500 })
        }
    } else if names(model, "sonnet"@) && names_either(model, "4-6"@, "4.6"@) && thinking {
        Some(Baseline { per_input_token: 253, per_output_token: 39300 })
    } else if names(model, "sonnet"@) && names_either(model, "4-5"@, "4.5"@) {
        Some(Baseline { per_input_token: 284, per_output_token: 13700 })
    } else if names(model, "haiku"@) && names_either(model, "4-5"@, "4.5"@) {
        Some(Baseline { per_input_token: 142, per_output_token: 3900 })
    } else {
        None
    }
}

/// Bytes with their ASCII letters in lower case.
fn to_lower(bytes: &[u8]) -> (r: Vec<u8>)
    ensures
        r@ == lower(bytes@),
{
    let mut out: Vec<u8> = Vec::new();
    let mut i: usize = 0;
    while i < bytes.len()
        invariant
            i <= bytes@.len(),
            out@.len() == i,
            forall|j: int| 0 <= j < i ==> #[trigger] out@[j] == lower_byte(bytes@[j]),
        decreases bytes@.len() - i,
    {
        let b: u8 = bytes[i];
        out.push(
            if 0x41 <= b && b <= 0x5a {
                b + 0x20
            } else {
                b
            },
        );
        i = i + 1;
    }
    proof {
        assert(out@ =~= lower(bytes@));
    }
    out
}

/// Whether the bytes hold a word.
fn holds(bytes: &Vec<u8>, word: &str) -> (r: bool)
    ensures
        r == text::contains_bytes(bytes@, text::bytes_of(word@)),
{
    text::find_bytes(bytes.as_slice(), word.as_bytes(), 0).is_some()
}

/// What a model costs without a cache, `None` where that is not known.
pub fn baseline_for(model: &str) -> (r: Option<Baseline>)
    ensures
        r == baseline_model(model@),
{
    let name = to_lower(model.as_bytes());
    let thinking: bool = holds(&name, "thinking");
    let opus: bool = holds(&name, "opus");
    let sonnet: bool = holds(&name, "sonnet");
    let haiku: bool = holds(&name, "haiku");
    let v48: bool = holds(&name, "4-8") || holds(&name, "4.8");
    let v47: bool = holds(&name, "4-7") || holds(&name, "4.7");
    let v46: bool = holds(&name, "4-6") || holds(&name, "4.6");
    let v45: bool = holds(&name, "4-5") || holds(&name, "4.5");
    if opus && (v48 || v47) {
        if thinking {
            Some(Baseline { per_input_token: 722, per_output_token: 40600 })
        } else {
            Some(Baseline { per_input_token: 837, per_output_token: 29600 })
        }
    } else if opus && v46 {
        if thinking {
            Some(Baseline { per_input_token: 690, per_output_token: 21000 })
        } else {
            Some(Baseline { per_input_token: 553, per_output_token: 24500 })
        }
    } else if sonnet && v46 && thinking {
        Some(Baseline { per_input_token: 253, per_output_token: 39300 })
    } else if sonnet && v45 {
        Some(Baseline { per_input_token: 284, per_output_token: 13700 })
    } else if haiku && v45 {
        Some(Baseline { per_input_token: 142, per_output_token: 3900 })
    } else {
        None
    }
}

/// What the models cost that are known, by the words in their names. Those of one family that are
/// newer come before those that are older.
pub proof fn known_models_have_their_price(model: Seq<char>)
    ensures
        ({
            let b = baseline_model(model);
            let thinks = names(model, "thinking"@);
            let newer = names(model, "4-8"@) || names(model, "4.8"@) || names(model, "4-7"@)
                || names(model, "4.7"@);
            let middle = names(model, "4-6"@) || names(model, "4.6"@);
            let older = names(model, "4-5"@) || names(model, "4.5"@);
            let opus = names(model, "opus"@);
            let sonnet = names(model, "sonnet"@);
            let haiku = names(model, "haiku"@);
            &&& opus && newer && thinks ==> (b matches Some(p) && p.per_input_token == 722
                && p.per_output_token == 40600)
            &&& opus && newer && !thinks ==> (b matches Some(p) && p.per_input_token == 837
                && p.per_output_token == 29600)
            &&& opus && !newer && middle && thinks ==> (b matches Some(p) && p.per_input_token == 690
                && p.per_output_token == 21000)
            &&& opus && !newer && middle && !thinks ==> (b matches Some(p) && p.per_input_token
                == 553 && p.per_output_token == 24500)
            &&& !opus && sonnet && middle && thinks ==> (b matches Some(p) && p.per_input_token
                == 253 && p.per_output_token == 39300)
            &&& !opus && sonnet && !middle && older ==> (b matches Some(p) && p.per_input_token
                == 284 && p.per_output_token == 13700)
            &&& !opus && !sonnet && haiku && older ==> (b matches Some(p) && p.per_input_token == 142
                && p.per_output_token == 3900)
            &&& !opus && !sonnet && !haiku ==> b is None
            &&& !newer && !middle && !older ==> b is None
            &&& !opus && sonnet && middle && !thinks && !older ==> b is None
        }),
{
}

/// The case of letters in the name of a model makes no difference.
pub proof fn letter_case_makes_no_difference(a: Seq<char>, b: Seq<char>)
    requires
        text::bytes_of(a).len() == text::bytes_of(b).len(),
        forall|i: int|
            #![trigger text::bytes_of(a)[i]]
            0 <= i < text::bytes_of(a).len() ==> {
                let x = text::bytes_of(a)[i];
                let y = text::bytes_of(b)[i];
                x == y || (65 <= x <= 90 && y == x + 32) || (65 <= y <= 90 && x == y + 32)
            },
    ensures
        baseline_model(a) == baseline_model(b),
{
    let x = text::bytes_of(a);
    let y = text::bytes_of(b);
    assert(lower(x) =~= lower(y)) by {
        assert forall|i: int| 0 <= i < lower(x).len() implies lower(x)[i] == lower(y)[i] by {
            assert(x[i] == x[i]);
        }
    }
}

/// A word in lower case is found in the name of a model where its letters stand there.
pub proof fn words_are_found(model: Seq<char>, word: Seq<char>)
    requires
        text::contains_bytes(text::bytes_of(model), text::bytes_of(word)),
        forall|i: int|
            0 <= i < text::bytes_of(word).len() ==> !(65 <= #[trigger] text::bytes_of(word)[i]
                <= 90),
    ensures
        names(model, word),
{
    let hay = text::bytes_of(model);
    let needle = text::bytes_of(word);
    let at = choose|at: int| text::occurs_at(hay, needle, at);
    assert(text::occurs_at(hay, needle, at));
    assert(lower(hay).subrange(at, at + needle.len()) =~= needle) by {
        assert forall|i: int| 0 <= i < needle.len() implies lower(hay)[at + i] == needle[i] by {
            assert(hay.subrange(at, at + needle.len())[i] == needle[i]);
        }
    }
    assert(text::occurs_at(lower(hay), needle, at));
}

} // verus!
