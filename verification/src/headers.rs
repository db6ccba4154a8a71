use vstd::prelude::*;
use vstd::utf8::encode_utf8;

use reqwest::header::{HeaderMap, HeaderName, HeaderValue};

use crate::text::chars_of;

verus! {

#[verifier::external_type_specification]
#[verifier::external_body]
#[verifier::reject_recursive_types(T)]
pub struct ExHeaderMap<T>(reqwest::header::HeaderMap<T>);

#[verifier::external_type_specification]
#[verifier::external_body]
pub struct ExHeaderValue(reqwest::header::HeaderValue);

/// What a header map holds, in the order in which `HeaderMap::iter` yields
/// it: each name (as `HeaderName::as_str` gives it) with the bytes of a value.
pub uninterp spec fn header_entries(m: HeaderMap) -> Seq<(Seq<char>, Seq<u8>)>;

/// A character that a header name may hold (an HTTP token character).
pub open spec fn is_token_char(c: char) -> bool {
    ||| 'a' <= c <= 'z'
    ||| 'A' <= c <= 'Z'
    ||| '0' <= c <= '9'
    ||| c == '!' || c == '#' || c == '$' || c == '%' || c == '&' || c == '\''
    ||| c == '*' || c == '+' || c == '-' || c == '.' || c == '^' || c == '_'
    ||| c == '`' || c == '|' || c == '~'
}

/// The text is a header name that `HeaderName::from_bytes` accepts: one to
/// 65535 token characters.
pub open spec fn header_name_ok(s: Seq<char>) -> bool {
    &&& 0 < s.len() <= 65535
    &&& forall|i: int| 0 <= i < s.len() ==> is_token_char(#[trigger] s[i])
}

/// A character that `HeaderValue::from_str` accepts in a value: a tab, or no
/// control character (any non-ASCII character is accepted, as its UTF-8 bytes are).
pub open spec fn is_value_char(c: char) -> bool {
    c == '\t' || (c as u32 >= 32 && c as u32 != 127)
}

/// The text is a header value that `HeaderValue::from_str` accepts.
pub open spec fn header_value_ok(s: Seq<char>) -> bool {
    forall|i: int| 0 <= i < s.len() ==> is_value_char(#[trigger] s[i])
}

/// ASCII capitals turned into small letters; other characters unchanged.
pub open spec fn ascii_lower(s: Seq<char>) -> Seq<char> {
    s.map_values(|c: char| if 'A' <= c <= 'Z' { ((c as u32) + 32) as char } else { c })
}

/// No name occurs twice.
pub open spec fn distinct_names(s: Seq<(Seq<char>, Seq<u8>)>) -> bool {
    forall|i: int, j: int| 0 <= i < j < s.len() ==> #[trigger] s[i].0 != #[trigger] s[j].0
}

/// Where `name` stands.
pub open spec fn name_at(s: Seq<(Seq<char>, Seq<u8>)>, name: Seq<char>, i: int) -> bool {
    0 <= i < s.len() && s[i].0 == name
}

/// The entries after setting `name` to `value`: a present name keeps its place
/// and gets the new value, a new name comes last.
pub open spec fn entries_insert(s: Seq<(Seq<char>, Seq<u8>)>, name: Seq<char>, value: Seq<u8>) -> Seq<
    (Seq<char>, Seq<u8>),
> {
    if exists|i: int| name_at(s, name, i) {
        let i = choose|i: int| name_at(s, name, i);
        s.update(i, (name, value))
    } else {
        s.push((name, value))
    }
}

/// The entries after removing `name`: the last entry moves into its place.
pub open spec fn entries_remove(s: Seq<(Seq<char>, Seq<u8>)>, name: Seq<char>) -> Seq<
    (Seq<char>, Seq<u8>),
> {
    if exists|i: int| name_at(s, name, i) {
        let i = choose|i: int| name_at(s, name, i);
        if i == s.len() - 1 {
            s.drop_last()
        } else {
            s.drop_last().update(i, s.last())
        }
    } else {
        s
    }
}

/// The value stored for `name`, if any.
pub open spec fn entry_value(s: Seq<(Seq<char>, Seq<u8>)>, name: Seq<char>) -> Option<Seq<u8>> {
    if exists|i: int| name_at(s, name, i) {
        let i = choose|i: int| name_at(s, name, i);
        Some(s[i].1)
    } else {
        None
    }
}

/// A bound on the entries below which an insertion never asks a header map
/// to grow its table past the largest size (2^15 slots): the table grows on
/// reaching a fifth of its slots when its probe sequences have grown long, and
/// that case depends on the hashes, so an insertion may fail from this many
/// entries on.
pub open spec fn max_headers() -> nat {
    6554
}

/// `HeaderMap::new`: the map is empty.
#[verifier::external_body]
pub(crate) fn header_map_new() -> (m: HeaderMap)
    ensures
        header_entries(m) == Seq::<(Seq<char>, Seq<u8>)>::empty(),
{
    HeaderMap::new()
}

/// `HeaderMap::try_insert` of a name made by `HeaderName::from_bytes` and a
/// value made by `HeaderValue::from_str`. On success the name is stored in
/// small letters; a present name keeps its place and its values are replaced
/// by the new one; a new name is added after the others. It fails, changing no
/// entry, only when the map's table would have to grow past its largest size,
/// which cannot happen below `max_headers()` entries. `from_bytes` and
/// `from_str` panic on invalid text, which `requires` rules out.
#[verifier::external_body]
pub(crate) fn header_map_try_insert(m: &mut HeaderMap, name: &str, value: &str) -> (ok: bool)
    requires
        header_name_ok(name@),
        header_value_ok(value@),
        distinct_names(header_entries(*old(m))),
    ensures
        ok ==> header_entries(*final(m)) == entries_insert(
            header_entries(*old(m)),
            ascii_lower(name@),
            encode_utf8(value@),
        ),
        !ok ==> header_entries(*final(m)) == header_entries(*old(m)),
        !ok ==> header_entries(*old(m)).len() >= max_headers(),
{
    m.try_insert(HeaderName::from_bytes(name.as_bytes()).unwrap(), HeaderValue::from_str(value).unwrap()).is_ok()
}

/// `HeaderMap::remove` by a name given as text: the entry of that name (in
/// small letters) goes, and the last entry moves into its place.
#[verifier::external_body]
pub(crate) fn header_map_remove(m: &mut HeaderMap, name: &str)
    requires
        header_name_ok(name@),
        distinct_names(header_entries(*old(m))),
    ensures
        header_entries(*final(m)) == entries_remove(header_entries(*old(m)), ascii_lower(name@)),
{
    m.remove(name);
}

/// `HeaderMap::iter`, each name taken as text and each value as its bytes.
#[verifier::external_body]
pub(crate) fn header_map_pairs(m: &HeaderMap) -> (v: Vec<(String, Vec<u8>)>)
    ensures
        v@.map_values(|p: (String, Vec<u8>)| (p.0@, p.1@)) == header_entries(*m),
{
    m.iter().map(|(k, v)| (k.as_str().to_string(), v.as_bytes().to_vec())).collect()
}

/// Whether `s` is a header name that `HeaderName::from_bytes` accepts.
pub fn valid_header_name(s: &str) -> (b: bool)
    ensures
        b == header_name_ok(s@),
{
    let cs = chars_of(s);
    if cs.len() == 0 || cs.len() > 65535 {
        return false;
    }
    let mut i: usize = 0;
    while i < cs.len()
        invariant
            i <= cs.len(),
            cs@ == s@,
            forall|j: int| 0 <= j < i ==> is_token_char(#[trigger] cs@[j]),
        decreases cs.len() - i,
    {
        let c = cs[i];
        let ok = ('a' <= c && c <= 'z') || ('A' <= c && c <= 'Z') || ('0' <= c && c <= '9') || c
            == '!' || c == '#' || c == '$' || c == '%' || c == '&' || c == '\'' || c == '*' || c
            == '+' || c == '-' || c == '.' || c == '^' || c == '_' || c == '`' || c == '|' || c
            == '~';
        if !ok {
            return false;
        }
        i += 1;
    }
    true
}

/// Whether `s` is a header value that `HeaderValue::from_str` accepts.
pub fn valid_header_value(s: &str) -> (b: bool)
    ensures
        b == header_value_ok(s@),
{
    let cs = chars_of(s);
    let mut i: usize = 0;
    while i < cs.len()
        invariant
            i <= cs.len(),
            cs@ == s@,
            forall|j: int| 0 <= j < i ==> is_value_char(#[trigger] cs@[j]),
        decreases cs.len() - i,
    {
        let u = cs[i] as u32;
        if !(cs[i] == '\t' || (u >= 32 && u != 127)) {
            return false;
        }
        i += 1;
    }
    true
}

/// Inserting keeps the names distinct, puts the value under the name, and
/// leaves every other name's value as it was.
pub proof fn law_insert_entries(s: Seq<(Seq<char>, Seq<u8>)>, name: Seq<char>, value: Seq<u8>)
    requires
        distinct_names(s),
    ensures
        distinct_names(entries_insert(s, name, value)),
        entry_value(entries_insert(s, name, value), name) == Some(value),
        forall|other: Seq<char>|
            other != name ==> entry_value(#[trigger] entries_insert(s, name, value), other)
                == entry_value(s, other),
        entries_insert(s, name, value).len() == s.len() + (if exists|i: int| name_at(s, name, i) {
            0int
        } else {
            1int
        }),
{
    let t = entries_insert(s, name, value);
    if exists|i: int| name_at(s, name, i) {
        let i = choose|i: int| name_at(s, name, i);
        assert(name_at(t, name, i));
        assert forall|a: int, b: int| 0 <= a < b < t.len() implies #[trigger] t[a].0
            != #[trigger] t[b].0 by {
            assert(t[a].0 == s[a].0);
            assert(t[b].0 == s[b].0);
        }
        assert forall|k: int| name_at(t, name, k) implies k == i by {
            if k != i {
                assert(s[k].0 == name);
            }
        }
        assert forall|other: Seq<char>| other != name implies entry_value(t, other) == entry_value(
            s,
            other,
        ) by {
            assert forall|k: int| name_at(t, other, k) <==> name_at(s, other, k) by {}
            if exists|k: int| name_at(s, other, k) {
                let k = choose|k: int| name_at(s, other, k);
                let k2 = choose|k2: int| name_at(t, other, k2);
                assert(name_at(s, other, k2));
                if k != k2 {
                    assert(s[k].0 == s[k2].0);
                }
            }
        }
    } else {
        let n = s.len() as int;
        assert(name_at(t, name, n));
        assert forall|a: int, b: int| 0 <= a < b < t.len() implies #[trigger] t[a].0
            != #[trigger] t[b].0 by {
            if b == n {
                assert(!name_at(s, name, a));
            }
        }
        assert forall|k: int| name_at(t, name, k) implies k == n by {
            if k < n {
                assert(name_at(s, name, k));
            }
        }
        assert forall|other: Seq<char>| other != name implies entry_value(t, other) == entry_value(
            s,
            other,
        ) by {
            assert forall|k: int| name_at(t, other, k) <==> name_at(s, other, k) by {}
            if exists|k: int| name_at(s, other, k) {
                let k = choose|k: int| name_at(s, other, k);
                let k2 = choose|k2: int| name_at(t, other, k2);
                if k != k2 {
                    assert(s[k].0 == s[k2].0);
                }
            }
        }
    }
}

/// Removing keeps the names distinct, drops the name, and leaves every other
/// name's value as it was.
pub proof fn law_remove_entries(s: Seq<(Seq<char>, Seq<u8>)>, name: Seq<char>)
    requires
        distinct_names(s),
    ensures
        distinct_names(entries_remove(s, name)),
        entry_value(entries_remove(s, name), name) is None,
        forall|other: Seq<char>|
            other != name ==> entry_value(#[trigger] entries_remove(s, name), other)
                == entry_value(s, other),
{
    let t = entries_remove(s, name);
    if exists|i: int| name_at(s, name, i) {
        let i = choose|i: int| name_at(s, name, i);
        let n = s.len() - 1;
        assert forall|a: int, b: int| 0 <= a < b < t.len() implies #[trigger] t[a].0
            != #[trigger] t[b].0 by {
            let sa = if a == i { n } else { a };
            let sb = if b == i { n } else { b };
            assert(t[a] == s[sa]);
            assert(t[b] == s[sb]);
        }
        assert forall|k: int| !name_at(t, name, k) by {
            if 0 <= k < t.len() {
                let sk = if k == i { n } else { k };
                assert(t[k] == s[sk]);
            }
        }
        assert forall|other: Seq<char>| other != name implies entry_value(t, other) == entry_value(
            s,
            other,
        ) by {
            if exists|k: int| name_at(s, other, k) {
                let k = choose|k: int| name_at(s, other, k);
                let tk = if k == n { i } else { k };
                assert(name_at(t, other, tk));
                let k2 = choose|k2: int| name_at(t, other, k2);
                let sk2 = if k2 == i { n } else { k2 };
                assert(t[k2] == s[sk2]);
                if sk2 != k {
                    assert(s[k].0 == s[sk2].0);
                }
            } else {
                assert forall|k: int| !name_at(t, other, k) by {
                    if 0 <= k < t.len() {
                        let sk = if k == i { n } else { k };
                        assert(t[k] == s[sk]);
                        assert(!name_at(s, other, sk));
                    }
                }
            }
        }
    }
}

} // verus!
