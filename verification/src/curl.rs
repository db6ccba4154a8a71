use vstd::prelude::*;

use reqwest::header::HeaderMap;

use crate::headers::{header_entries, header_map_pairs};
use crate::text::{chars_of, push_char, string_of};

verus! {

/// What `str::to_uppercase` returns for the text (Unicode upper case).
pub uninterp spec fn unicode_upper(s: Seq<char>) -> Seq<char>;

/// `str::to_uppercase`: the upper-case form of the text, by Unicode's rules;
/// what that is for given text is left to the name `unicode_upper`.
#[verifier::external_body]
fn to_uppercase(s: &str) -> (r: String)
    ensures
        r@ == unicode_upper(s@),
{
    s.to_uppercase()
}

/// A byte that `HeaderValue::to_str` accepts: visible ASCII or a tab.
pub open spec fn is_visible_ascii(b: u8) -> bool {
    (32 <= b < 127) || b == 9
}

/// A header value as text: the bytes as characters when all are visible ASCII
/// (as `HeaderValue::to_str` accepts them), else the empty text.
pub open spec fn header_text(v: Seq<u8>) -> Seq<char> {
    if forall|i: int| 0 <= i < v.len() ==> is_visible_ascii(#[trigger] v[i]) {
        v.map_values(|b: u8| b as char)
    } else {
        seq![]
    }
}

/// A header value shows as its bytes, each as the character of that code,
/// when every byte is a tab or lies in 32..=126 (the space included); a value
/// with any other byte shows as the empty text.
pub proof fn law_header_text(v: Seq<u8>)
    ensures
        (forall|i: int| 0 <= i < v.len() ==> (32 <= #[trigger] v[i] <= 126 || v[i] == 9))
            ==> header_text(v) == v.map_values(|b: u8| b as char),
        (exists|i: int| 0 <= i < v.len() && !(32 <= #[trigger] v[i] <= 126 || v[i] == 9))
            ==> header_text(v) == Seq::<char>::empty(),
{
    if forall|i: int| 0 <= i < v.len() ==> (32 <= #[trigger] v[i] <= 126 || v[i] == 9) {
        assert forall|i: int| 0 <= i < v.len() implies is_visible_ascii(#[trigger] v[i]) by {
            assert(32 <= v[i] <= 126 || v[i] == 9);
        }
    } else {
        let i = choose|i: int| 0 <= i < v.len() && !(32 <= #[trigger] v[i] <= 126 || v[i] == 9);
        assert(!is_visible_ascii(v[i]));
    }
}

/// ` -H 'name: value'` for each header, in order, each quoted for a shell.
pub open spec fn header_args(e: Seq<(Seq<char>, Seq<u8>)>) -> Seq<char>
    decreases e.len(),
{
    if e.len() == 0 {
        seq![]
    } else {
        header_args(e.drop_last()) + seq![' ', '-', 'H', ' '] + quoted(
            e.last().0 + seq![':', ' '] + header_text(e.last().1),
        )
    }
}

/// The text with each `'` written as `'\''`, for use between single quotes.
pub open spec fn shell_escape(s: Seq<char>) -> Seq<char>
    decreases s.len(),
{
    if s.len() == 0 {
        seq![]
    } else {
        (if s[0] == '\'' {
            seq!['\'', '\\', '\'', '\'']
        } else {
            seq![s[0]]
        }) + shell_escape(s.drop_first())
    }
}

/// The text as one single-quoted shell word.
pub open spec fn quoted(s: Seq<char>) -> Seq<char> {
    seq!['\''] + shell_escape(s) + seq!['\'']
}

/// The curl command line for a request whose method is already upper case:
/// `curl -X METHOD 'url'`, then ` -H 'name: value'` for each header, then
/// ` -d 'body'`, the URL, each header and the body quoted for a shell.
pub open spec fn curl_text(
    method: Seq<char>,
    url: Seq<char>,
    e: Seq<(Seq<char>, Seq<u8>)>,
    body: Option<Seq<char>>,
) -> Seq<char> {
    seq!['c', 'u', 'r', 'l', ' ', '-', 'X', ' '] + method + seq![' '] + quoted(url) + header_args(
        e,
    ) + match body {
        Some(b) => seq![' ', '-', 'd', ' '] + quoted(b),
        None => seq![],
    }
}

fn push_str_chars(r: &mut String, s: &Vec<char>)
    ensures
        final(r)@ == old(r)@ + s@,
{
    let t = string_of(s.as_slice());
    r.append(t.as_str());
}

/// A header value as text, as `header_text` says.
fn value_text(v: &Vec<u8>) -> (s: Vec<char>)
    ensures
        s@ == header_text(v@),
{
    let mut out: Vec<char> = Vec::new();
    let mut i: usize = 0;
    while i < v.len()
        invariant
            i <= v.len(),
            out@ == v@.take(i as int).map_values(|b: u8| b as char),
            forall|k: int| 0 <= k < i ==> is_visible_ascii(#[trigger] v@[k]),
        decreases v.len() - i,
    {
        let b = v[i];
        if !((32 <= b && b < 127) || b == 9) {
            return Vec::new();
        }
        out.push(b as char);
        assert(v@.take(i + 1).map_values(|b: u8| b as char) == v@.take(i as int).map_values(
            |b: u8| b as char,
        ).push(b as char));
        i += 1;
    }
    assert(v@.take(v.len() as int) == v@);
    out
}

proof fn lemma_shell_escape_push(s: Seq<char>, c: char)
    ensures
        shell_escape(s.push(c)) == shell_escape(s) + (if c == '\'' {
            seq!['\'', '\\', '\'', '\'']
        } else {
            seq![c]
        }),
    decreases s.len(),
{
    if s.len() > 0 {
        assert(s.push(c).drop_first() == s.drop_first().push(c));
        lemma_shell_escape_push(s.drop_first(), c);
    } else {
        assert(s.push(c).drop_first() == s);
    }
}

/// Each header's name and value as they are shown, in order: the value as text
/// when it is visible ASCII, else empty.
pub fn header_text_pairs(headers: &HeaderMap) -> (r: Vec<(String, String)>)
    ensures
        r@.map_values(|p: (String, String)| (p.0@, p.1@)) == header_entries(*headers).map_values(
            |e: (Seq<char>, Seq<u8>)| (e.0, header_text(e.1)),
        ),
{
    let pairs = header_map_pairs(headers);
    let ghost e = header_entries(*headers);
    let mut r: Vec<(String, String)> = Vec::new();
    let mut i: usize = 0;
    while i < pairs.len()
        invariant
            i <= pairs.len(),
            pairs@.map_values(|p: (String, Vec<u8>)| (p.0@, p.1@)) == e,
            r@.map_values(|p: (String, String)| (p.0@, p.1@)) == e.take(i as int).map_values(
                |e: (Seq<char>, Seq<u8>)| (e.0, header_text(e.1)),
            ),
        decreases pairs.len() - i,
    {
        let v = value_text(&pairs[i].1);
        let t = string_of(v.as_slice());
        let ghost before = r@;
        r.push((pairs[i].0.clone(), t));
        proof {
            assert(e.len() == pairs.len());
            assert(e[i as int] == (pairs[i as int].0@, pairs[i as int].1@));
            assert(e.take(i + 1) == e.take(i as int).push(e[i as int]));
            assert(r@ == before.push((pairs[i as int].0, t)));
            assert(r@.map_values(|p: (String, String)| (p.0@, p.1@)) == before.map_values(
                |p: (String, String)| (p.0@, p.1@),
            ).push((pairs[i as int].0@, t@)));
            assert(e.take(i + 1).map_values(|e: (Seq<char>, Seq<u8>)| (e.0, header_text(e.1)))
                == e.take(i as int).map_values(
                |e: (Seq<char>, Seq<u8>)| (e.0, header_text(e.1)),
            ).push((e[i as int].0, header_text(e[i as int].1))));
        }
        i += 1;
    }
    assert(e.take(pairs.len() as int) == e);
    r
}

/// `name: value` for a header, the value as `header_text` shows it.
fn header_word(name: &String, value: &Vec<u8>) -> (h: Vec<char>)
    ensures
        h@ == name@ + seq![':', ' '] + header_text(value@),
{
    let mut h = chars_of(name.as_str());
    h.push(':');
    h.push(' ');
    let v = value_text(value);
    let mut k: usize = 0;
    let ghost h0 = h@;
    assert(h0 == name@ + seq![':', ' ']);
    while k < v.len()
        invariant
            k <= v.len(),
            h@ == h0 + v@.take(k as int),
        decreases v.len() - k,
    {
        h.push(v[k]);
        assert(v@.take(k + 1) == v@.take(k as int).push(v@[k as int]));
        k += 1;
    }
    assert(v@.take(v.len() as int) == v@);
    h
}

/// Appends the text as one single-quoted shell word.
fn push_quoted(r: &mut String, s: &Vec<char>)
    ensures
        final(r)@ == old(r)@ + quoted(s@),
{
    push_char(r, '\'');
    let ghost start = r@;
    let mut k: usize = 0;
    while k < s.len()
        invariant
            k <= s.len(),
            r@ == start + shell_escape(s@.take(k as int)),
        decreases s.len() - k,
    {
        let c = s[k];
        proof {
            lemma_shell_escape_push(s@.take(k as int), c);
            assert(s@.take(k + 1) == s@.take(k as int).push(c));
        }
        if c == '\'' {
            push_str_chars(r, &vec!['\'', '\\', '\'', '\'']);
        } else {
            push_char(r, c);
        }
        k += 1;
    }
    assert(s@.take(s.len() as int) == s@);
    push_char(r, '\'');
}

/// The curl command line for a request, given its method in upper case.
pub fn curl_command_upper(
    method_upper: &str,
    url: &str,
    headers: &HeaderMap,
    body: Option<&str>,
) -> (r: String)
    ensures
        r@ == curl_text(
            method_upper@,
            url@,
            header_entries(*headers),
            match body {
                Some(b) => Some(b@),
                None => None,
            },
        ),
{
    let mut r = string_of(vec!['c', 'u', 'r', 'l', ' ', '-', 'X', ' '].as_slice());
    r.append(method_upper);
    push_char(&mut r, ' ');
    let uc = chars_of(url);
    push_quoted(&mut r, &uc);
    let ghost head = r@;
    let pairs = header_map_pairs(headers);
    let ghost e = header_entries(*headers);
    let mut i: usize = 0;
    while i < pairs.len()
        invariant
            i <= pairs.len(),
            pairs@.map_values(|p: (String, Vec<u8>)| (p.0@, p.1@)) == e,
            r@ == head + header_args(e.take(i as int)),
        decreases pairs.len() - i,
    {
        assert(e.take(i + 1).drop_last() == e.take(i as int));
        assert(e.take(i + 1).last() == (pairs[i as int].0@, pairs[i as int].1@));
        push_str_chars(&mut r, &vec![' ', '-', 'H', ' ']);
        let h = header_word(&pairs[i].0, &pairs[i].1);
        push_quoted(&mut r, &h);
        i += 1;
    }
    assert(e.take(pairs.len() as int) == e);
    match body {
        Some(b) => {
            push_str_chars(&mut r, &vec![' ', '-', 'd', ' ']);
            let bc = chars_of(b);
            push_quoted(&mut r, &bc);
        },
        None => {},
    }
    r
}

/// The curl command line that sends the same request: the method in upper
/// case, the URL, each header, and the body if there is one.
pub fn generate_curl_command(method: &str, url: &str, headers: &HeaderMap, body: Option<&str>) -> (r:
    String)
    ensures
        r@ == curl_text(
            unicode_upper(method@),
            url@,
            header_entries(*headers),
            match body {
                Some(b) => Some(b@),
                None => None,
            },
        ),
{
    let upper = to_uppercase(method);
    curl_command_upper(upper.as_str(), url, headers, body)
}


/// Text without a single quote is escaped as itself.
proof fn lemma_shell_escape_plain(s: Seq<char>)
    requires
        !s.contains('\''),
    ensures
        shell_escape(s) == s,
    decreases s.len(),
{
    if s.len() > 0 {
        let t = s.drop_first();
        assert(!t.contains('\'')) by {
            if t.contains('\'') {
                let i = choose|i: int| 0 <= i < t.len() && t[i] == '\'';
                assert(s[i + 1] == t[i]);
            }
        }
        lemma_shell_escape_plain(t);
        assert(s[0] != '\'');
        assert(seq![s[0]] + t =~= s);
    }
}

/// The command line for a URL, one header and a body, none of which holds a
/// single quote (the header value made of bytes 32..=126 or tabs): `curl -X `,
/// the method, ` 'URL'`, ` -H 'name: value'` with the value's bytes as
/// characters, and ` -d 'body'`; without the header and the body, only the
/// first part.
pub proof fn law_curl_text_plain(
    method: Seq<char>,
    url: Seq<char>,
    name: Seq<char>,
    value: Seq<u8>,
    body: Seq<char>,
)
    requires
        !url.contains('\''),
        !name.contains('\''),
        !body.contains('\''),
        forall|i: int|
            0 <= i < value.len() ==> (32 <= #[trigger] value[i] <= 126 || value[i] == 9)
                && value[i] != 39,
    ensures
        curl_text(method, url, seq![], None) == seq!['c', 'u', 'r', 'l', ' ', '-', 'X', ' ']
            + method + seq![' ', '\''] + url + seq!['\''],
        curl_text(method, url, seq![(name, value)], Some(body)) == seq![
            'c',
            'u',
            'r',
            'l',
            ' ',
            '-',
            'X',
            ' ',
        ] + method + seq![' ', '\''] + url + seq!['\''] + seq![' ', '-', 'H', ' ', '\''] + name
            + seq![':', ' '] + value.map_values(|b: u8| b as char) + seq!['\'']
            + seq![' ', '-', 'd', ' ', '\''] + body + seq!['\''],
{
    lemma_shell_escape_plain(url);
    lemma_shell_escape_plain(body);
    law_header_text(value);
    let text = value.map_values(|b: u8| b as char);
    let line = name + seq![':', ' '] + text;
    assert(!line.contains('\'')) by {
        if line.contains('\'') {
            let i = choose|i: int| 0 <= i < line.len() && line[i] == '\'';
            if i < name.len() {
                assert(name[i] == line[i]);
            } else if i >= name.len() + 2 {
                let k = i - name.len() - 2;
                assert(line[i] == text[k]);
                assert(value[k] != 39);
            }
        }
    }
    lemma_shell_escape_plain(line);
    let e = seq![(name, value)];
    assert(e.drop_last() =~= Seq::<(Seq<char>, Seq<u8>)>::empty());
    assert(header_args(Seq::<(Seq<char>, Seq<u8>)>::empty()) =~= Seq::<char>::empty());
    assert(header_args(e) =~= seq![' ', '-', 'H', ' '] + quoted(line));
    assert(curl_text(method, url, seq![], None) =~= seq!['c', 'u', 'r', 'l', ' ', '-', 'X', ' ']
        + method + seq![' ', '\''] + url + seq!['\'']);
}

/// How a POSIX shell reads a word made of single-quoted pieces, backslash
/// escapes and plain characters; `quoted` says whether a single quote is open.
pub open spec fn shell_read(t: Seq<char>, quoted: bool) -> Seq<char>
    decreases t.len(),
{
    if t.len() == 0 {
        seq![]
    } else if quoted {
        if t[0] == '\'' {
            shell_read(t.drop_first(), false)
        } else {
            seq![t[0]] + shell_read(t.drop_first(), true)
        }
    } else if t[0] == '\'' {
        shell_read(t.drop_first(), true)
    } else if t[0] == '\\' && t.len() >= 2 {
        seq![t[1]] + shell_read(t.skip(2), false)
    } else {
        seq![t[0]] + shell_read(t.drop_first(), false)
    }
}

proof fn lemma_shell_read_escaped(b: Seq<char>, rest: Seq<char>)
    ensures
        shell_read(shell_escape(b) + rest, true) == b + shell_read(rest, true),
    decreases b.len(),
{
    if b.len() == 0 {
        assert(shell_escape(b) + rest == rest);
        assert(b + shell_read(rest, true) == shell_read(rest, true));
    } else {
        let c = b[0];
        let tail = shell_escape(b.drop_first()) + rest;
        lemma_shell_read_escaped(b.drop_first(), rest);
        if c == '\'' {
            let t = seq!['\'', '\\', '\'', '\''] + tail;
            assert(shell_escape(b) + rest == t);
            assert(t.drop_first() == seq!['\\', '\'', '\''] + tail);
            let t1 = t.drop_first();
            assert(t1.skip(2) == seq!['\''] + tail);
            assert((seq!['\''] + tail).drop_first() == tail);
            assert(shell_read(seq!['\''] + tail, false) == shell_read(tail, true));
            assert(shell_read(t1, false) == seq!['\''] + shell_read(tail, true));
            assert(shell_read(t, true) == shell_read(t1, false));
        } else {
            let t = seq![c] + tail;
            assert(shell_escape(b) + rest == t);
            assert(t.drop_first() == tail);
            assert(shell_read(t, true) == seq![c] + shell_read(tail, true));
        }
        assert(b == seq![c] + b.drop_first());
    }
}

/// A quoted word of the curl command line (the URL, each `name: value` header
/// and the body), read by a POSIX shell, is the text itself, whatever quotes
/// it holds.
pub proof fn law_shell_quoting(b: Seq<char>)
    ensures
        shell_read(quoted(b), false) == b,
{
    let t = quoted(b);
    assert(t.drop_first() == shell_escape(b) + seq!['\'']);
    lemma_shell_read_escaped(b, seq!['\'']);
    assert(seq!['\''].drop_first() == Seq::<char>::empty());
    assert(shell_read(seq!['\''], true) == shell_read(Seq::<char>::empty(), false));
    assert(shell_read(seq!['\''], true) == Seq::<char>::empty());
    assert(shell_read(t, false) == shell_read(t.drop_first(), true));
    assert(b + Seq::<char>::empty() == b);
}

} // verus!
