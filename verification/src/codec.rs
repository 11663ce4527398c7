//! The encoded hash format: `$` + tag + `$` + decimal cost + `$` +
//! base64 salt + `$` + base64 digest + `$`.
//!
//! Encoding and decoding are exact inverses, and `encode_hash` carries that
//! round trip in its contract: decoding what it built yields the fields it
//! was given.

use vstd::prelude::*;
use vstd::string::*;

verus! {

use crate::b64::b64_of;
use crate::b64::b64_decode_of;
use crate::b64::is_b64_char;
use crate::b64::base64_encode;
use crate::b64::base64_decode;
use crate::b64::lemma_b64_char_not_delim;
use crate::text::sep_free;
use crate::text::spec_split;
use crate::text::split_str;
use crate::text::spec_parse_u64;
use crate::text::spec_dec_digits;
use crate::text::parse_u64_digits;
use crate::text::u64_to_dec;
use crate::text::digit_val;
use crate::text::lemma_split_whole;
use crate::text::lemma_split_concat;
use crate::text::lemma_dec_digits_value;
use crate::text::lemma_digit_not_delim;
use crate::text::lemma_parse_of_rendered;

/// The decoded fields of a stored hash.
pub struct HashParts {
    /// The algorithm tag, e.g. the scheme version constant.
    pub tag: String,
    /// The cost exponent: the primitive ran 2^cost times.
    pub cost: u64,
    /// The raw salt bytes.
    pub salt: Vec<u8>,
    /// The raw digest bytes.
    pub digest: Vec<u8>,
}

/// The text a tag, cost, salt and digest encode to.
pub open spec fn spec_encode(tag: Seq<char>, cost: u64, salt: Seq<u8>, digest: Seq<u8>) -> Seq<
    char,
> {
    seq!['$'] + tag + seq!['$'] + spec_dec_digits(cost as int) + seq!['$'] + b64_of(salt) + seq![
        '$',
    ] + b64_of(digest) + seq!['$']
}

/// What decoding a stored text yields: the four fields, provided the text
/// splits on `$` into exactly the framed four, the cost parses as a decimal
/// number that fits the 64-bit counter, and both base64 fields decode.
pub open spec fn spec_decode(s: Seq<char>) -> Option<(Seq<char>, u64, Seq<u8>, Seq<u8>)> {
    let parts = spec_split(s, '$');
    if parts.len() == 6 && parts[0].len() == 0 && parts[5].len() == 0 {
        match (spec_parse_u64(parts[2]), b64_decode_of(parts[3]), b64_decode_of(parts[4])) {
            (Some(cost), Some(salt), Some(digest)) => Some((parts[1], cost, salt, digest)),
            _ => None,
        }
    } else {
        None
    }
}

/// Serializes the four fields.  Decoding the result recovers them exactly;
/// the tag must not contain the delimiter, and the length bounds keep the
/// base64 encoder's size computation in range.
pub fn encode_hash(tag: &str, cost: u64, salt: &[u8], digest: &[u8]) -> (r: String)
    requires
        sep_free(tag@, '$'),
        salt@.len() <= 0x4000_0000_0000_0000,
        digest@.len() <= 0x4000_0000_0000_0000,
    ensures
        r@ == spec_encode(tag@, cost, salt@, digest@),
        spec_decode(r@) == Some((tag@, cost, salt@, digest@)),
{
    let mut out = String::new();
    out.append("$");
    out.append(tag);
    out.append("$");
    let coststr = u64_to_dec(cost);
    out.append(coststr.as_str());
    out.append("$");
    let salt_b64 = base64_encode(salt);
    out.append(salt_b64.as_str());
    out.append("$");
    let digest_b64 = base64_encode(digest);
    out.append(digest_b64.as_str());
    out.append("$");
    proof {
        reveal_strlit("$");
        assert("$"@ =~= seq!['$']);
        let dsep = seq!['$'];
        let digits = spec_dec_digits(cost as int);
        let sb = b64_of(salt@);
        let db = b64_of(digest@);
        assert(out@ =~= spec_encode(tag@, cost, salt@, digest@));

        // Each interior field is free of the delimiter.
        lemma_dec_digits_value(cost as int);
        assert forall|i: int| 0 <= i < digits.len() implies #[trigger] digits[i] != '$' by {
            lemma_digit_not_delim(digits[i]);
            assert(digit_val(digits[i]) >= 0);
        }
        assert forall|i: int| 0 <= i < sb.len() implies #[trigger] sb[i] != '$' by {
            lemma_b64_char_not_delim(sb[i]);
        }
        assert forall|i: int| 0 <= i < db.len() implies #[trigger] db[i] != '$' by {
            lemma_b64_char_not_delim(db[i]);
        }

        // Peel the five delimiters off one by one.
        let r5 = Seq::<char>::empty();
        let r4 = db + dsep + r5;
        let r3 = sb + dsep + r4;
        let r2 = digits + dsep + r3;
        let r1 = tag@ + dsep + r2;
        assert(out@ =~= Seq::<char>::empty() + dsep + r1);
        lemma_split_concat(Seq::<char>::empty(), r1, '$');
        lemma_split_concat(tag@, r2, '$');
        lemma_split_concat(digits, r3, '$');
        lemma_split_concat(sb, r4, '$');
        lemma_split_concat(db, r5, '$');
        lemma_split_whole(r5, '$');
        let parts = spec_split(out@, '$');
        assert(parts =~= seq![Seq::<char>::empty(), tag@, digits, sb, db, Seq::<char>::empty()]);
        lemma_parse_of_rendered(cost as int);
        assert(spec_parse_u64(parts[2]) == Some(cost));
        assert(b64_decode_of(parts[3]) == Some(salt@));
        assert(b64_decode_of(parts[4]) == Some(digest@));
    }
    out
}

/// Parses a stored text back into its fields, failing closed on any
/// structural defect: wrong field count, missing framing, an unparsable
/// cost, or base64 that does not decode.
pub fn decode_hash(s: &str) -> (r: Option<HashParts>)
    ensures
        match r {
            Some(p) => spec_decode(s@) == Some((p.tag@, p.cost, p.salt@, p.digest@)),
            None => spec_decode(s@) is None,
        },
{
    let parts = split_str(s, '$');
    let ghost sparts = spec_split(s@, '$');
    if parts.len() != 6 {
        return None;
    }
    if !parts[0].as_str().is_empty() {
        return None;
    }
    if !parts[5].as_str().is_empty() {
        return None;
    }
    let cost = match parse_u64_digits(parts[2].as_str()) {
        Some(c) => c,
        None => {
            return None;
        },
    };
    let salt = match base64_decode(parts[3].as_str()) {
        Some(v) => v,
        None => {
            return None;
        },
    };
    let digest = match base64_decode(parts[4].as_str()) {
        Some(v) => v,
        None => {
            return None;
        },
    };
    let tag = parts[1].clone();
    Some(HashParts { tag, cost, salt, digest })
}

} // verus!
