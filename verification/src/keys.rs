//! Key normalization: a raw postcode string is canonicalized into a cache
//! key by removing spaces, hyphens, commas and the coordinate separator.

use vstd::prelude::*;
use vstd::string::*;

verus! {

/// Name of the store table that holds postcode entries.
pub const POSTCODE_TABLE_NAME: &'static str = "POSTCODE";

/// Separator between the latitude and longitude fields of a stored
/// coordinate string.
pub const COORDINATES_SEPARATOR: &'static str = ";";

/// The characters that normalization strips from a raw postcode: space,
/// hyphen, comma, and the coordinate separator character.
pub open spec fn is_key_separator(c: char) -> bool {
    c == ' ' || c == '-' || c == ',' || c == ';'
}

/// The normalized form of a raw postcode: its characters with every
/// separator character removed, in order.
pub open spec fn normalize_key(s: Seq<char>) -> Seq<char>
    decreases s.len(),
{
    if s.len() == 0 {
        Seq::empty()
    } else if is_key_separator(s[0]) {
        normalize_key(s.drop_first())
    } else {
        seq![s[0]] + normalize_key(s.drop_first())
    }
}

/// Normalization distributes over concatenation.
pub proof fn lemma_normalize_concat(a: Seq<char>, b: Seq<char>)
    ensures
        normalize_key(a + b) == normalize_key(a) + normalize_key(b),
    decreases a.len(),
{
    if a.len() == 0 {
        assert(a + b =~= b);
        assert(normalize_key(a) + normalize_key(b) =~= normalize_key(b));
    } else {
        assert((a + b).drop_first() =~= a.drop_first() + b);
        lemma_normalize_concat(a.drop_first(), b);
        if !is_key_separator(a[0]) {
            assert(seq![a[0]] + (normalize_key(a.drop_first()) + normalize_key(b))
                =~= (seq![a[0]] + normalize_key(a.drop_first())) + normalize_key(b));
        }
    }
}

/// No separator character survives normalization.
pub proof fn lemma_normalize_no_separators(s: Seq<char>)
    ensures
        forall|i: int|
            0 <= i < normalize_key(s).len() ==> !is_key_separator(#[trigger] normalize_key(s)[i]),
    decreases s.len(),
{
    if s.len() > 0 {
        lemma_normalize_no_separators(s.drop_first());
        if !is_key_separator(s[0]) {
            assert forall|i: int|
                0 <= i < normalize_key(s).len() implies !is_key_separator(
                #[trigger] normalize_key(s)[i],
            ) by {
                if i > 0 {
                    assert(normalize_key(s)[i] == normalize_key(s.drop_first())[i - 1]);
                }
            }
        }
    }
}

/// A string without separator characters is already normalized.
pub proof fn lemma_normalize_identity(s: Seq<char>)
    requires
        forall|i: int| 0 <= i < s.len() ==> !is_key_separator(#[trigger] s[i]),
    ensures
        normalize_key(s) == s,
    decreases s.len(),
{
    if s.len() == 0 {
        assert(normalize_key(s) =~= s);
    } else {
        lemma_normalize_identity(s.drop_first());
        assert(seq![s[0]] + s.drop_first() =~= s);
    }
}

/// Normalization is idempotent: normalizing a key a second time changes
/// nothing.
pub proof fn lemma_normalize_idempotent(s: Seq<char>)
    ensures
        normalize_key(normalize_key(s)) == normalize_key(s),
{
    lemma_normalize_no_separators(s);
    lemma_normalize_identity(normalize_key(s));
}

/// Exec test for a separator character.
pub fn is_separator_char(c: char) -> (b: bool)
    ensures
        b == is_key_separator(c),
{
    c == ' ' || c == '-' || c == ',' || c == ';'
}

/// Key Normalizer: build the cache key for a raw postcode query by
/// deleting every space, hyphen, comma and coordinate-separator
/// character. Any string normalizes to some key, including the empty
/// string; there is no error path.
pub fn build_cache_key(query: &str) -> (r: String)
    ensures
        r@ == normalize_key(query@),
{
    let len = query.unicode_len();
    let mut out = String::new();
    let mut i: usize = 0;
    while i < len
        invariant
            i <= len,
            len == query@.len(),
            out@ == normalize_key(query@.subrange(0, i as int)),
        decreases len - i,
    {
        let c = query.get_char(i);
        if !is_separator_char(c) {
            let piece = query.substring_char(i, i + 1);
            out.append(piece);
        }
        proof {
            reveal_with_fuel(normalize_key, 3);
            assert(query@.subrange(0, i + 1) =~= query@.subrange(0, i as int) + seq![query@[i as int]]);
            lemma_normalize_concat(query@.subrange(0, i as int), seq![query@[i as int]]);
            assert(seq![query@[i as int]].drop_first() =~= Seq::<char>::empty());
            if !is_key_separator(query@[i as int]) {
                assert(normalize_key(seq![query@[i as int]]) =~= seq![query@[i as int]]);
            }
        }
        i += 1;
    }
    proof {
        assert(query@.subrange(0, len as int) =~= query@);
    }
    out
}

} // verus!
