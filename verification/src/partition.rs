//! The partitioner: a list id owns to the node `id mod cluster_size`.
//!
//! This is the only sharding rule; changing it is the single point of
//! control for repartitioning policy.
use vstd::prelude::*;
use crate::strutil::all_digits;
use crate::strutil::dec_str;
use crate::strutil::dec_val;
use crate::strutil::is_digit;
use crate::strutil::str_chars;
use crate::strutil::u64_to_dec;

verus! {

/// The value a list id parses to, when it is a plain decimal numeral
/// whose value fits a `u32`; `None` otherwise.
pub open spec fn parse_u32_spec(s: Seq<char>) -> Option<u32> {
    if s.len() > 0 && all_digits(s) && dec_val(s) <= u32::MAX {
        Some(dec_val(s) as u32)
    } else {
        None
    }
}

/// A digit string's value is never negative.
proof fn lemma_dec_val_nonneg(s: Seq<char>)
    requires
        all_digits(s),
    ensures
        dec_val(s) >= 0,
    decreases s.len(),
{
    if s.len() > 0 {
        assert(all_digits(s.drop_last())) by {
            assert(forall|j: int|
                0 <= j < s.len() - 1 ==> #[trigger] s.drop_last()[j] == s[j]);
        }
        lemma_dec_val_nonneg(s.drop_last());
        assert(is_digit(s.last()));
    }
}

/// Reading further digits never decreases the value read so far.
proof fn lemma_dec_val_take(s: Seq<char>, i: int)
    requires
        all_digits(s),
        0 <= i <= s.len(),
    ensures
        dec_val(s.take(i)) <= dec_val(s),
    decreases s.len() - i,
{
    if i < s.len() {
        let t = s.take(i + 1);
        assert(t.drop_last() =~= s.take(i));
        assert(t.last() == s[i]);
        assert(all_digits(s.take(i))) by {
            assert(forall|j: int| 0 <= j < i ==> #[trigger] s.take(i)[j] == s[j]);
        }
        lemma_dec_val_nonneg(s.take(i));
        assert(is_digit(s[i]));
        assert(dec_val(t) == dec_val(s.take(i)) * 10 + (s[i] as u32 - 48));
        lemma_dec_val_take(s, i + 1);
    } else {
        assert(s.take(i) =~= s);
    }
}

/// Parses a decimal numeral into a `u32`, rejecting empty strings,
/// non-digit characters and values past `u32::MAX`.
pub fn parse_u32(s: &str) -> (r: Option<u32>)
    ensures
        r == parse_u32_spec(s@),
{
    let cs = str_chars(s);
    if cs.len() == 0 {
        return None;
    }
    let mut i: usize = 0;
    while i < cs.len()
        invariant
            i <= cs.len(),
            cs@ == s@,
            forall|j: int| 0 <= j < i ==> is_digit(#[trigger] s@[j]),
        decreases cs@.len() - i,
    {
        let c = cs[i];
        let u = c as u32;
        if u < 48 || u > 57 {
            proof {
                assert(!is_digit(s@[i as int]));
            }
            return None;
        }
        i = i + 1;
    }
    assert(all_digits(s@));
    let mut acc: u64 = 0;
    let mut k: usize = 0;
    proof {
        assert(s@.take(0) =~= Seq::<char>::empty());
    }
    while k < cs.len()
        invariant
            k <= cs.len(),
            cs@ == s@,
            all_digits(s@),
            acc == dec_val(s@.take(k as int)),
            acc <= u32::MAX,
        decreases cs@.len() - k,
    {
        let c = cs[k];
        assert(is_digit(s@[k as int]));
        let d = (c as u32 - 48) as u64;
        let acc2 = acc * 10 + d;
        proof {
            let t = s@.take(k as int + 1);
            assert(t.drop_last() =~= s@.take(k as int));
            assert(t.last() == s@[k as int]);
            assert(dec_val(t) == acc * 10 + d);
        }
        if acc2 > 0xffff_ffff {
            proof {
                lemma_dec_val_take(s@, k as int + 1);
            }
            return None;
        }
        acc = acc2;
        k = k + 1;
    }
    proof {
        assert(s@.take(cs@.len() as int) =~= s@);
    }
    Some(acc as u32)
}

/// Resolves the owning node of a list id: the id's numeric value modulo
/// the cluster size. Deterministic in its inputs, and every returned
/// owner lies inside the node range `0 .. cluster_size`.
pub fn owner_of(list_id: &str, cluster_size: u32) -> (r: Option<u32>)
    requires
        cluster_size > 0,
    ensures
        r == match parse_u32_spec(list_id@) {
            Some(v) => Some(v % cluster_size),
            None => None::<u32>,
        },
        r matches Some(o) ==> o < cluster_size,
{
    match parse_u32(list_id) {
        Some(v) => Some(v % cluster_size),
        None => None,
    }
}

/// Resolves the owning node of a list id as the decimal node-id string
/// that wire messages carry; `None` when the id is not a numeral.
pub fn get_owner_id(list_id: &str, cluster_size: u32) -> (r: Option<String>)
    requires
        cluster_size > 0,
    ensures
        match (r, parse_u32_spec(list_id@)) {
            (Some(o), Some(v)) => o@ == dec_str((v % cluster_size) as nat),
            (None, None) => true,
            _ => false,
        },
{
    match owner_of(list_id, cluster_size) {
        Some(o) => Some(u64_to_dec(o as u64)),
        None => None,
    }
}

} // verus!
