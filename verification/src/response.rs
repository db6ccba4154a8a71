use vstd::prelude::*;

use reqwest::header::HeaderMap;

use crate::headers::{header_entries, header_map_pairs};
use crate::json::{json_accepts, json_pretty, pretty_json_text};
use crate::text::{
    chars_of, find_text, first_occurrence, slice_chars, string_of, trim_char, trim_char_chars,
};

verus! {

/// The body as JSON in its pretty form when it is JSON, which is the default;
/// `None`, for the body to be shown verbatim, under `--raw` or when the body is
/// no JSON. `--pretty` asks for what is the default already.
pub fn render_body(body: &str, raw: bool, pretty: bool) -> (r: Option<String>)
    ensures
        r is Some <==> (!raw && json_accepts(body@)),
        r matches Some(p) ==> p@ == json_pretty(body@),
{
    if raw {
        None
    } else {
        pretty_json_text(body)
    }
}

/// The value of the first entry named `name`, as `HeaderMap::get` finds it.
pub open spec fn lookup(e: Seq<(Seq<char>, Seq<u8>)>, name: Seq<char>) -> Option<Seq<u8>>
    decreases e.len(),
{
    if e.len() == 0 {
        None
    } else if e[0].0 == name {
        Some(e[0].1)
    } else {
        lookup(e.drop_first(), name)
    }
}

/// A header value as text, as `HeaderValue::to_str` gives it: only when every
/// byte is visible ASCII or a tab.
pub open spec fn visible_text(v: Seq<u8>) -> Option<Seq<char>> {
    if forall|i: int| 0 <= i < v.len() ==> crate::curl::is_visible_ascii(#[trigger] v[i]) {
        Some(v.map_values(|b: u8| b as char))
    } else {
        None
    }
}

pub open spec fn content_disposition_name() -> Seq<char> {
    seq![
        'c', 'o', 'n', 't', 'e', 'n', 't', '-', 'd', 'i', 's', 'p', 'o', 's', 'i', 't', 'i', 'o', 'n',
    ]
}

pub open spec fn filename_key() -> Seq<char> {
    seq!['f', 'i', 'l', 'e', 'n', 'a', 'm', 'e', '=']
}

/// The piece of `s` between the first and the second occurrence of `p` (or the
/// end), as `s.split(p).nth(1)` gives it.
pub open spec fn second_piece(s: Seq<char>, p: Seq<char>) -> Option<Seq<char>> {
    match first_occurrence(s, p) {
        Some(i) => {
            let after = s.skip(i + p.len());
            Some(
                match first_occurrence(after, p) {
                    Some(j) => after.take(j),
                    None => after,
                },
            )
        },
        None => None,
    }
}

/// The file name that a `Content-Disposition` value names: what follows
/// `filename=` up to a further `filename=`, without surrounding double and
/// then single quotes.
pub open spec fn filename_of(v: Seq<char>) -> Option<Seq<char>> {
    match second_piece(v, filename_key()) {
        Some(piece) => Some(trim_char(trim_char(piece, '"'), '\'')),
        None => None,
    }
}

/// The file name of `...; filename=NAME`, where no `=` comes before
/// `filename=` and none in `NAME`: `NAME` itself when it holds no quote, and
/// the text between the double quotes of `filename="NAME"`.
pub proof fn law_filename_of(pre: Seq<char>, name: Seq<char>)
    requires
        !pre.contains('='),
        !name.contains('='),
        !name.contains('"'),
        !name.contains('\''),
    ensures
        filename_of(pre + seq!['f', 'i', 'l', 'e', 'n', 'a', 'm', 'e', '='] + name) == Some(name),
        filename_of(pre + seq!['f', 'i', 'l', 'e', 'n', 'a', 'm', 'e', '='] + seq!['"'] + name
            + seq!['"']) == Some(name),
{
    let quoted = seq!['"'] + name + seq!['"'];
    assert(!quoted.contains('=')) by {
        if quoted.contains('=') {
            let i = choose|i: int| 0 <= i < quoted.len() && quoted[i] == '=';
            assert(name[i - 1] == quoted[i]);
        }
    }
    assert(!quoted.contains('\'')) by {
        if quoted.contains('\'') {
            let i = choose|i: int| 0 <= i < quoted.len() && quoted[i] == '\'';
            assert(name[i - 1] == quoted[i]);
        }
    }
    lemma_filename_piece(pre, name);
    lemma_filename_piece(pre, quoted);
    crate::text::law_trim_char_around(name, '"');
    crate::text::law_trim_char_around(name, '\'');
    assert(pre + filename_key() + seq!['"'] + name + seq!['"'] =~= pre + filename_key() + quoted);
}

/// The piece after `filename=` in `pre` then `filename=` then `q`, with no `=`
/// in `pre` nor in `q`, is `q`.
proof fn lemma_filename_piece(pre: Seq<char>, q: Seq<char>)
    requires
        !pre.contains('='),
        !q.contains('='),
    ensures
        second_piece(pre + filename_key() + q, filename_key()) == Some(q),
{
    let s = pre + filename_key() + q;
    let n = pre.len() as int;
    lemma_key_first_at(pre, q);
    lemma_no_key(q);
    assert(s.skip(n + 9) =~= q);
}

/// `filename=` first occurs in `pre` then `filename=` then `q` right after
/// `pre`, when `pre` holds no `=`.
proof fn lemma_key_first_at(pre: Seq<char>, q: Seq<char>)
    requires
        !pre.contains('='),
    ensures
        first_occurrence(pre + filename_key() + q, filename_key()) == Some(pre.len() as int),
{
    let key = filename_key();
    let s = pre + key + q;
    let n = pre.len() as int;
    assert(s.subrange(n, n + 9) =~= key);
    assert forall|j: int| 0 <= j < n implies !crate::text::occurs_at(s, key, j) by {
        lemma_no_eq_before_key(pre, q, j);
        if crate::text::occurs_at(s, key, j) {
            assert(s.subrange(j, j + 9)[8] == s[j + 8]);
        }
    }
    crate::text::lemma_first_occurrence(s, key, n);
}

/// Before the `=` of `filename=`, at each of the nine places up to it, the
/// text has no `=`.
proof fn lemma_no_eq_before_key(pre: Seq<char>, q: Seq<char>, j: int)
    requires
        !pre.contains('='),
        0 <= j < pre.len(),
    ensures
        (pre + filename_key() + q)[j + 8] != '=',
{
    let s = pre + filename_key() + q;
    let n = pre.len() as int;
    if j + 8 < n {
        assert(s[j + 8] == pre[j + 8]);
    } else {
        let k = j + 8 - n;
        assert(s[j + 8] == filename_key()[k]);
        assert(0 <= k < 8);
        assert(filename_key()[k] != '=');
    }
}

/// `filename=` does not occur in a text without `=`.
proof fn lemma_no_key(q: Seq<char>)
    requires
        !q.contains('='),
    ensures
        first_occurrence(q, filename_key()) is None,
{
    let key = filename_key();
    assert forall|j: int| !crate::text::occurs_at(q, key, j) by {
        if crate::text::occurs_at(q, key, j) {
            assert(q.subrange(j, j + 9)[8] == q[j + 8]);
        }
    }
}

/// Where a download is saved: the output path given, else the file name
/// that the response's `Content-Disposition` header names.
pub open spec fn download_target(
    output: Option<Seq<char>>,
    e: Seq<(Seq<char>, Seq<u8>)>,
) -> Option<Seq<char>> {
    match output {
        Some(o) => Some(o),
        None => match lookup(e, content_disposition_name()) {
            Some(v) => match visible_text(v) {
                Some(t) => filename_of(t),
                None => None,
            },
            None => None,
        },
    }
}

/// The file name that a `Content-Disposition` value names.
pub fn filename_from_disposition(v: &str) -> (r: Option<String>)
    ensures
        match r {
            Some(s) => filename_of(v@) == Some(s@),
            None => filename_of(v@) is None,
        },
{
    let cs = chars_of(v);
    let key = vec!['f', 'i', 'l', 'e', 'n', 'a', 'm', 'e', '='];
    assert(key@ == filename_key());
    match find_text(&cs, &key) {
        Some(i) => {
            assert(crate::text::occurs_at(cs@, key@, i as int));
            assert(i + key.len() <= cs.len());
            let after = slice_chars(&cs, i + key.len(), cs.len());
            assert(after@ == cs@.skip(i + key@.len()));
            let piece = match find_text(&after, &key) {
                Some(j) => slice_chars(&after, 0, j),
                None => after,
            };
            let t1 = trim_char_chars(&piece, '"');
            let t2 = trim_char_chars(&t1, '\'');
            Some(string_of(t2.as_slice()))
        },
        None => None,
    }
}

/// The bytes as text, when every one is visible ASCII or a tab.
fn visible_chars(v: &Vec<u8>) -> (r: Option<Vec<char>>)
    ensures
        match r {
            Some(t) => visible_text(v@) == Some(t@),
            None => visible_text(v@) is None,
        },
{
    let mut out: Vec<char> = Vec::new();
    let mut k: usize = 0;
    while k < v.len()
        invariant
            k <= v.len(),
            out@ == v@.take(k as int).map_values(|b: u8| b as char),
            forall|j: int| 0 <= j < k ==> crate::curl::is_visible_ascii(#[trigger] v@[j]),
        decreases v.len() - k,
    {
        let b = v[k];
        if !((32 <= b && b < 127) || b == 9) {
            assert(!crate::curl::is_visible_ascii(v@[k as int]));
            return None;
        }
        out.push(b as char);
        assert(v@.take(k + 1).map_values(|b: u8| b as char) == v@.take(k as int).map_values(
            |b: u8| b as char,
        ).push(b as char));
        k += 1;
    }
    assert(v@.take(v.len() as int) == v@);
    Some(out)
}

/// The value of the first header named `name`, as text when it is visible ASCII.
fn header_text_of(headers: &HeaderMap, name: &Vec<char>) -> (r: Option<String>)
    ensures
        match r {
            Some(s) => match lookup(header_entries(*headers), name@) {
                Some(v) => visible_text(v) == Some(s@),
                None => false,
            },
            None => match lookup(header_entries(*headers), name@) {
                Some(v) => visible_text(v) is None,
                None => true,
            },
        },
{
    let pairs = header_map_pairs(headers);
    let ghost e = header_entries(*headers);
    let mut i: usize = 0;
    assert(e.skip(0) == e);
    while i < pairs.len()
        invariant
            i <= pairs.len(),
            pairs@.map_values(|p: (String, Vec<u8>)| (p.0@, p.1@)) == e,
            e == header_entries(*headers),
            lookup(e, name@) == lookup(e.skip(i as int), name@),
        decreases pairs.len() - i,
    {
        let n = chars_of(pairs[i].0.as_str());
        assert(e.len() == pairs.len());
        assert(e.skip(i as int)[0] == (pairs[i as int].0@, pairs[i as int].1@));
        assert(e.skip(i as int).len() > 0);
        if crate::text::same_chars(&n, name) {
            assert(lookup(e.skip(i as int), name@) == Some(pairs[i as int].1@));
            let vis = visible_chars(&pairs[i].1);
            match vis {
                Some(out) => {
                    let t = string_of(out.as_slice());
                    assert(visible_text(pairs[i as int].1@) == Some(t@));
                    return Some(t);
                },
                None => {
                    return None;
                },
            }
        }
        assert(e.skip(i as int).drop_first() == e.skip(i + 1));
        i += 1;
    }
    None
}

/// Where a download is saved, as `download_target` says.
pub fn download_path(output: Option<String>, headers: &HeaderMap) -> (r: Option<String>)
    ensures
        crate::request::opt_view(r) == download_target(
            crate::request::opt_view(output),
            header_entries(*headers),
        ),
{
    match output {
        Some(o) => Some(o),
        None => {
            let name = vec![
                'c', 'o', 'n', 't', 'e', 'n', 't', '-', 'd', 'i', 's', 'p', 'o', 's', 'i', 't',
                'i', 'o', 'n',
            ];
            assert(name@ == content_disposition_name());
            match header_text_of(headers, &name) {
                Some(t) => filename_from_disposition(t.as_str()),
                None => None,
            }
        },
    }
}

} // verus!
