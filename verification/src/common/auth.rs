//! Comparison of access keys.

use vstd::prelude::*;
use vstd::string::*;

use crate::text;

verus! {

/// Whether two texts are equal. Each byte is looked at, wherever the first difference is.
pub fn constant_time_eq(a: &str, b: &str) -> (r: bool)
    ensures
        r == (a@ == b@),
{
    let x = a.as_bytes();
    let y = b.as_bytes();
    if x.len() != y.len() {
        return false;
    }
    let mut difference: u8 = 0;
    let mut i: usize = 0;
    proof {
        assert(x@.take(0) =~= y@.take(0));
    }
    while i < x.len()
        invariant
            i <= x@.len(),
            x@.len() == y@.len(),
            difference == 0 <==> x@.take(i as int) == y@.take(i as int),
        decreases x@.len() - i,
    {
        let before: u8 = difference;
        let p: u8 = x[i];
        let q: u8 = y[i];
        difference = before | (p ^ q);
        proof {
            assert((before | (p ^ q)) == 0 <==> before == 0 && p == q) by (bit_vector);
            assert(x@.take(i + 1) =~= x@.take(i as int).push(p));
            assert(y@.take(i + 1) =~= y@.take(i as int).push(q));
            if x@.take(i + 1) == y@.take(i + 1) {
                assert(x@.take(i + 1)[i as int] == y@.take(i + 1)[i as int]);
                assert(x@.take(i as int) =~= x@.take(i + 1).drop_last());
                assert(y@.take(i as int) =~= y@.take(i + 1).drop_last());
            }
        }
        i = i + 1;
    }
    proof {
        assert(x@.take(x@.len() as int) =~= x@);
        assert(y@.take(y@.len() as int) =~= y@);
        if x@ == y@ {
            text::lemma_bytes_determine_text(a@, b@);
        }
    }
    difference == 0
}


/// The key that was presented, where it is one of those that open the gateway. All keys are looked
/// at, wherever the presented one stands among them.
pub fn match_key(presented: Option<String>, keys: &Vec<String>) -> (r: Option<String>)
    ensures
        match r {
            Some(key) => presented == Some(key) && text::texts(keys@).contains(key@),
            None => match presented {
                Some(key) => !text::texts(keys@).contains(key@),
                None => true,
            },
        },
{
    let key = match presented {
        Some(key) => key,
        None => return None,
    };
    let mut found: bool = false;
    for i in 0..keys.len()
        invariant
            found <==> exists|j: int| 0 <= j < i && (#[trigger] keys@[j])@ == key@,
    {
        let same: bool = constant_time_eq(key.as_str(), keys[i].as_str());
        found = found || same;
    }
    proof {
        let all = text::texts(keys@);
        if found {
            let j = choose|j: int| 0 <= j < keys@.len() && (#[trigger] keys@[j])@ == key@;
            assert(all[j] == key@);
        }
        if all.contains(key@) {
            let j = choose|j: int| 0 <= j < all.len() && all[j] == key@;
            assert(keys@[j]@ == key@);
        }
    }
    if found {
        Some(key)
    } else {
        None
    }
}

/// Whether the presented key is the one key that is admitted.
pub fn is_key(presented: &Option<String>, key: &str) -> (r: bool)
    ensures
        r == (match *presented {
            Some(p) => p@ == key@,
            None => false,
        }),
{
    match presented {
        Some(p) => constant_time_eq(p.as_str(), key),
        None => false,
    }
}

} // verus!
