//! Vector-index configuration and collection naming. All network access to
//! the index lives outside this library.

use crate::chars::{chars_of, string_from_chars};
use vstd::prelude::*;
use vstd::string::StringExecFns;

verus! {

/// Connection configuration for the vector index.
pub struct QdrantConfig {
    pub url: String,
    pub api_key: Option<String>,
}

/// Whether a character survives unchanged in a collection name. Relies on
/// `char::is_alphanumeric`, whose result depends on the character alone.
pub uninterp spec fn is_alnum(c: char) -> bool;

/// Relies on `char::is_alphanumeric`: true exactly for Unicode alphabetic
/// and numeric characters.
#[verifier::external_body]
fn alphanumeric_char(c: char) -> (r: bool)
    ensures
        r == is_alnum(c),
{
    c.is_alphanumeric()
}

/// The lowercase form of a sequence of characters. Relies on
/// `str::to_lowercase`, whose result depends on the characters alone.
pub uninterp spec fn lower_of(s: Seq<char>) -> Seq<char>;

/// Relies on `str::to_lowercase`: the Unicode lowercase conversion of the
/// string; an empty string stays empty.
#[verifier::external_body]
fn lowercase(s: &str) -> (r: String)
    ensures
        r@ == lower_of(s@),
        s@.len() == 0 ==> r@.len() == 0,
{
    s.to_lowercase()
}

/// Every character that is not alphanumeric replaced by an underscore.
pub open spec fn underscored(s: Seq<char>) -> Seq<char> {
    Seq::new(
        s.len(),
        |i: int|
            if is_alnum(s[i]) {
                s[i]
            } else {
                '_'
            },
    )
}

/// Collection name for a file: `rag_` followed by the file name with every
/// non-alphanumeric character replaced by an underscore, lowercased.
pub fn get_collection_name(file_name: &str) -> (r: String)
    ensures
        r@ == "rag_"@ + lower_of(underscored(file_name@)),
{
    let v = chars_of(file_name);
    let n = v.len();
    let mut mapped: Vec<char> = Vec::new();
    let mut i: usize = 0;
    proof {
        assert(mapped@ =~= underscored(file_name@).subrange(0, 0));
    }
    while i < n
        invariant
            i <= n,
            n == v@.len(),
            v@ == file_name@,
            mapped@ == underscored(file_name@).subrange(0, i as int),
        decreases n - i,
    {
        let c = v[i];
        if alphanumeric_char(c) {
            mapped.push(c);
        } else {
            mapped.push('_');
        }
        proof {
            assert(mapped@ =~= underscored(file_name@).subrange(0, i + 1));
        }
        i += 1;
    }
    proof {
        assert(mapped@ =~= underscored(file_name@));
    }
    let mapped_str = string_from_chars(&mapped);
    let lowered = lowercase(mapped_str.as_str());
    let mut r = String::new();
    r.append("rag_");
    r.append(lowered.as_str());
    r
}

} // verus!
