//! The store's value codec. Values written through the generic table
//! interface are serialized as quoted strings, with backslash escapes
//! for the quote and backslash characters; raw reads of such an entry
//! see the quoted form, decoded reads recover the original text.

use vstd::prelude::*;
use vstd::string::*;

verus! {

/// The escaped body of a quoted value: quote and backslash characters
/// are preceded by a backslash.
pub open spec fn spec_escape(s: Seq<char>) -> Seq<char>
    decreases s.len(),
{
    if s.len() == 0 {
        Seq::empty()
    } else if s[0] == '"' || s[0] == '\\' {
        seq!['\\', s[0]] + spec_escape(s.drop_first())
    } else {
        seq![s[0]] + spec_escape(s.drop_first())
    }
}

/// The serialized form of a value: its escaped body between quotes.
pub open spec fn spec_quote(s: Seq<char>) -> Seq<char> {
    seq!['"'] + spec_escape(s) + seq!['"']
}

/// Decode an escaped body; `None` on a dangling backslash, an unknown
/// escape, or a bare quote.
pub open spec fn spec_unescape(s: Seq<char>) -> Option<Seq<char>>
    decreases s.len(),
{
    if s.len() == 0 {
        Some(Seq::empty())
    } else if s[0] == '\\' {
        if s.len() >= 2 && (s[1] == '"' || s[1] == '\\') {
            match spec_unescape(s.skip(2)) {
                None => None,
                Some(r) => Some(seq![s[1]] + r),
            }
        } else {
            None
        }
    } else if s[0] == '"' {
        None
    } else {
        match spec_unescape(s.drop_first()) {
            None => None,
            Some(r) => Some(seq![s[0]] + r),
        }
    }
}

/// Decode a serialized value; `None` unless the text is a well-formed
/// quoted string.
pub open spec fn spec_unquote(s: Seq<char>) -> Option<Seq<char>> {
    if s.len() >= 2 && s[0] == '"' && s.last() == '"' {
        spec_unescape(s.subrange(1, s.len() - 1))
    } else {
        None
    }
}

/// Decoding inverts encoding on the escaped body.
pub proof fn lemma_unescape_escape(s: Seq<char>)
    ensures
        spec_unescape(spec_escape(s)) == Some(s),
    decreases s.len(),
{
    if s.len() > 0 {
        lemma_unescape_escape(s.drop_first());
        if s[0] == '"' || s[0] == '\\' {
            let e = spec_escape(s);
            assert(e.skip(2) =~= spec_escape(s.drop_first()));
            assert(seq![s[0]] + s.drop_first() =~= s);
        } else {
            let e = spec_escape(s);
            assert(e.drop_first() =~= spec_escape(s.drop_first()));
            assert(seq![s[0]] + s.drop_first() =~= s);
        }
    }
}

/// Decoding inverts encoding: every value round-trips through the
/// codec.
pub proof fn lemma_quote_roundtrip(s: Seq<char>)
    ensures
        spec_unquote(spec_quote(s)) == Some(s),
{
    let q = spec_quote(s);
    assert(q.last() == '"');
    assert(q.subrange(1, q.len() - 1) =~= spec_escape(s));
    lemma_unescape_escape(s);
}

/// Serialize a value for storage.
pub fn quote_value(s: &str) -> (r: String)
    ensures
        r@ == spec_quote(s@),
    decreases s@.len(),
{
    let len = s.unicode_len();
    if len == 0 {
        let mut out = String::from_str("\"");
        out.append("\"");
        proof {
            reveal_strlit("\"");
            assert("\""@ =~= seq!['"']);
            assert(out@ =~= spec_quote(s@));
        }
        return out;
    }
    let mut out = String::from_str("\"");
    let mut i: usize = 0;
    proof {
        reveal_strlit("\"");
        assert("\""@ =~= seq!['"']);
        assert(s@.subrange(0, 0) =~= Seq::<char>::empty());
        assert(out@ =~= seq!['"'] + spec_escape(s@.subrange(0, 0)));
    }
    while i < len
        invariant
            i <= len,
            len == s@.len(),
            out@ == seq!['"'] + spec_escape(s@.subrange(0, i as int)),
        decreases len - i,
    {
        let c = s.get_char(i);
        if c == '"' || c == '\\' {
            out.append("\\");
            proof {
                reveal_strlit("\\");
                assert("\\"@ =~= seq!['\\']);
            }
        }
        let piece = s.substring_char(i, i + 1);
        out.append(piece);
        proof {
            assert(s@.subrange(0, i + 1) =~= s@.subrange(0, i as int) + seq![s@[i as int]]);
            lemma_escape_concat(s@.subrange(0, i as int), seq![s@[i as int]]);
            reveal_with_fuel(spec_escape, 3);
            assert(seq![s@[i as int]].drop_first() =~= Seq::<char>::empty());
            assert(out@ =~= seq!['"'] + spec_escape(s@.subrange(0, i + 1)));
        }
        i += 1;
    }
    out.append("\"");
    proof {
        reveal_strlit("\"");
        assert("\""@ =~= seq!['"']);
        assert(s@.subrange(0, len as int) =~= s@);
        assert(out@ =~= spec_quote(s@));
    }
    out
}

/// Escaping distributes over concatenation.
proof fn lemma_escape_concat(a: Seq<char>, b: Seq<char>)
    ensures
        spec_escape(a + b) == spec_escape(a) + spec_escape(b),
    decreases a.len(),
{
    if a.len() == 0 {
        assert(a + b =~= b);
        assert(spec_escape(a) + spec_escape(b) =~= spec_escape(b));
    } else {
        assert((a + b).drop_first() =~= a.drop_first() + b);
        lemma_escape_concat(a.drop_first(), b);
        if a[0] == '"' || a[0] == '\\' {
            assert(seq!['\\', a[0]] + (spec_escape(a.drop_first()) + spec_escape(b)) =~= (seq![
                '\\',
                a[0],
            ] + spec_escape(a.drop_first())) + spec_escape(b));
        } else {
            assert(seq![a[0]] + (spec_escape(a.drop_first()) + spec_escape(b)) =~= (seq![a[0]]
                + spec_escape(a.drop_first())) + spec_escape(b));
        }
    }
}

/// Decode the escaped body of a serialized value.
fn unescape_value(s: &str) -> (r: Option<String>)
    ensures
        r is Some <==> spec_unescape(s@) is Some,
        r is Some ==> Some(r->Some_0@) == spec_unescape(s@),
    decreases s@.len(),
{
    let len = s.unicode_len();
    if len == 0 {
        return Some(String::new());
    }
    let c = s.get_char(0);
    if c == '\\' {
        if len >= 2 {
            let e = s.get_char(1);
            if e == '"' || e == '\\' {
                let rest = unescape_value(s.substring_char(2, len));
                proof {
                    assert(s@.subrange(2, len as int) =~= s@.skip(2));
                }
                match rest {
                    None => None,
                    Some(r) => {
                        let mut out = s.substring_char(1, 2).to_owned();
                        out.append(r.as_str());
                        proof {
                            assert(out@ =~= seq![s@[1]] + r@);
                        }
                        Some(out)
                    },
                }
            } else {
                None
            }
        } else {
            None
        }
    } else if c == '"' {
        None
    } else {
        let rest = unescape_value(s.substring_char(1, len));
        proof {
            assert(s@.subrange(1, len as int) =~= s@.drop_first());
        }
        match rest {
            None => None,
            Some(r) => {
                let mut out = s.substring_char(0, 1).to_owned();
                out.append(r.as_str());
                proof {
                    assert(out@ =~= seq![s@[0]] + r@);
                }
                Some(out)
            },
        }
    }
}

/// Decode a serialized value back to the original text.
pub fn unquote_value(s: &str) -> (r: Option<String>)
    ensures
        r is Some <==> spec_unquote(s@) is Some,
        r is Some ==> Some(r->Some_0@) == spec_unquote(s@),
{
    let len = s.unicode_len();
    if len >= 2 && s.get_char(0) == '"' && s.get_char(len - 1) == '"' {
        let body = s.substring_char(1, len - 1);
        proof {
            assert(body@ =~= s@.subrange(1, s@.len() - 1));
        }
        unescape_value(body)
    } else {
        None
    }
}

} // verus!
