use vstd::prelude::*;
use vstd::utf8::encode_utf8;

use reqwest::header::HeaderMap;

use crate::base64::{base64, base64_encode};
use crate::headers::{
    ascii_lower, distinct_names, entries_insert, entries_remove, entry_value, header_entries,
    header_map_try_insert,
    header_map_new, header_map_remove, header_name_ok, header_value_ok, law_insert_entries,
    law_remove_entries, max_headers, valid_header_name, valid_header_value,
};
use crate::json::{
    described, json_keys, json_map_clone, json_map_insert_object, json_map_insert_text, json_map_new,
    json_object_members, json_object_pretty, json_object_text, json_object_to_pretty,
    json_object_to_string, json_text_fields, no_objects, texts_only, JsonObject,
};
use crate::kv::{
    fields_of, join, join_strings, key_value, parse_body_args, parse_form_args, parse_key_value,
    split_whitespace, words, FieldMap,
};
use crate::text::{chars_of, same_chars, split_once, split_once_chars, string_of};

verus! {

/// What a request is made of, as given on the command line.
pub struct RequestArgs {
    /// The URL given as the positional argument (empty when none was given).
    pub url: String,
    /// The URL given with `--url`.
    pub url_flag: Option<String>,
    /// The URL given with `--query`.
    pub query: Option<String>,
    /// The method asked for.
    pub method: Option<crate::method::HttpMethod>,
    /// `Key:Value` headers.
    pub headers: Vec<String>,
    /// `key=value` query parameters.
    pub params: Vec<String>,
    /// The body given with `--body`.
    pub body: Option<String>,
    /// The arguments after `--`.
    pub data_args: Vec<String>,
    /// Send a JSON body.
    pub json: bool,
    /// Send a form body.
    pub form: bool,
    /// `type:token` credentials.
    pub auth: Option<String>,
    /// A bearer token.
    pub bearer: Option<String>,
    /// `user:password` credentials.
    pub basic: Option<String>,
    /// An API key.
    pub api_key: Option<String>,
    /// A file to upload.
    pub upload: Option<String>,
    /// A file to upload.
    pub file: Option<String>,
    /// Send a GraphQL query.
    pub graphql: bool,
    /// The GraphQL query.
    pub gql_query: Option<String>,
    /// `key=value` GraphQL variables.
    pub gql_vars: Vec<String>,
}

pub open spec fn opt_view(o: Option<String>) -> Option<Seq<char>> {
    match o {
        Some(s) => Some(s@),
        None => None,
    }
}

pub open spec fn authorization_name() -> Seq<char> {
    seq!['a', 'u', 't', 'h', 'o', 'r', 'i', 'z', 'a', 't', 'i', 'o', 'n']
}

pub open spec fn api_key_name() -> Seq<char> {
    seq!['x', '-', 'a', 'p', 'i', '-', 'k', 'e', 'y']
}

pub open spec fn content_type_name() -> Seq<char> {
    seq!['c', 'o', 'n', 't', 'e', 'n', 't', '-', 't', 'y', 'p', 'e']
}

pub open spec fn json_mime() -> Seq<char> {
    seq!['a', 'p', 'p', 'l', 'i', 'c', 'a', 't', 'i', 'o', 'n', '/', 'j', 's', 'o', 'n']
}

pub open spec fn bearer_word() -> Seq<char> {
    seq!['b', 'e', 'a', 'r', 'e', 'r']
}

pub open spec fn basic_word() -> Seq<char> {
    seq!['b', 'a', 's', 'i', 'c']
}

pub open spec fn api_key_word() -> Seq<char> {
    seq!['a', 'p', 'i', '-', 'k', 'e', 'y']
}

/// `Bearer <token>`.
pub open spec fn bearer_value(token: Seq<char>) -> Seq<char> {
    seq!['B', 'e', 'a', 'r', 'e', 'r', ' '] + token
}

/// `Basic <credentials in Base64>`.
pub open spec fn basic_value(credentials: Seq<char>) -> Seq<char> {
    seq!['B', 'a', 's', 'i', 'c', ' '] + base64(encode_utf8(credentials))
}

/// The entries after the `Key:Value` header arguments: each pair whose name
/// and value a header accepts is set; the others are skipped.
pub open spec fn with_user_headers(e: Seq<(Seq<char>, Seq<u8>)>, hs: Seq<Seq<char>>) -> Seq<
    (Seq<char>, Seq<u8>),
>
    decreases hs.len(),
{
    if hs.len() == 0 {
        e
    } else {
        let pre = with_user_headers(e, hs.drop_last());
        match key_value(hs.last()) {
            Some((k, v)) => if header_name_ok(k) && header_value_ok(v) {
                entries_insert(pre, ascii_lower(k), encode_utf8(v))
            } else {
                pre
            },
            None => pre,
        }
    }
}

/// The entries after `--auth type:token`: `bearer` and `basic` set the
/// authorization (basic with the token and a colon as credentials), `api-key`
/// sets the API key; any other type, or text without a colon, sets nothing.
pub open spec fn with_auth(e: Seq<(Seq<char>, Seq<u8>)>, auth: Option<Seq<char>>) -> Seq<
    (Seq<char>, Seq<u8>),
> {
    match auth {
        Some(a) => match split_once(a, ':') {
            Some((ty, tok)) => if ty == bearer_word() {
                entries_insert(e, authorization_name(), encode_utf8(bearer_value(tok)))
            } else if ty == basic_word() {
                entries_insert(e, authorization_name(), encode_utf8(basic_value(tok + seq![':'])))
            } else if ty == api_key_word() {
                entries_insert(e, api_key_name(), encode_utf8(tok))
            } else {
                e
            },
            None => e,
        },
        None => e,
    }
}

/// The entries after `--bearer`, `--basic` and `--api-key`, in that order.
pub open spec fn with_credentials(
    e: Seq<(Seq<char>, Seq<u8>)>,
    bearer: Option<Seq<char>>,
    basic: Option<Seq<char>>,
    api_key: Option<Seq<char>>,
) -> Seq<(Seq<char>, Seq<u8>)> {
    let e1 = match bearer {
        Some(t) => entries_insert(e, authorization_name(), encode_utf8(bearer_value(t))),
        None => e,
    };
    let e2 = match basic {
        Some(c) => match split_once(c, ':') {
            Some((user, pass)) => entries_insert(
                e1,
                authorization_name(),
                encode_utf8(basic_value(user + seq![':'] + pass)),
            ),
            None => e1,
        },
        None => e1,
    };
    match api_key {
        Some(k) => entries_insert(e2, api_key_name(), encode_utf8(k)),
        None => e2,
    }
}

/// A body was given, after `--` or with `--body`.
pub open spec fn has_body_input(args: RequestArgs) -> bool {
    args.data_args.len() > 0 || args.body is Some
}

/// The body is sent as JSON.
pub open spec fn sends_json(args: RequestArgs) -> bool {
    has_body_input(args) && (args.json || args.graphql)
}

/// A file is uploaded.
pub open spec fn sends_file(args: RequestArgs) -> bool {
    args.upload is Some || args.file is Some
}

/// The headers of the request: the header arguments, then `--auth`, then
/// `--bearer`, `--basic` and `--api-key`, each replacing what an earlier one
/// set; a JSON content type for a JSON body; no content type when a file is
/// uploaded.
pub open spec fn request_headers(args: RequestArgs) -> Seq<(Seq<char>, Seq<u8>)> {
    let e0 = with_user_headers(Seq::empty(), args.headers.deep_view());
    let e1 = with_auth(e0, opt_view(args.auth));
    let e2 = with_credentials(
        e1,
        opt_view(args.bearer),
        opt_view(args.basic),
        opt_view(args.api_key),
    );
    let e3 = if sends_json(args) {
        entries_insert(e2, content_type_name(), encode_utf8(json_mime()))
    } else {
        e2
    };
    if sends_file(args) {
        entries_remove(e3, content_type_name())
    } else {
        e3
    }
}

/// The inputs on which making the headers does not panic: every token that
/// goes into a header verbatim is a valid header value.
pub open spec fn credentials_ok(args: RequestArgs) -> bool {
    &&& match opt_view(args.auth) {
        Some(a) => match split_once(a, ':') {
            Some((ty, tok)) => (ty == bearer_word() || ty == api_key_word()) ==> header_value_ok(
                tok,
            ),
            None => true,
        },
        None => true,
    }
    &&& match opt_view(args.bearer) {
        Some(t) => header_value_ok(t),
        None => true,
    }
    &&& match opt_view(args.api_key) {
        Some(k) => header_value_ok(k),
        None => true,
    }
}


/// Sets a header, keeping the names distinct; `false` when the map is full
/// and nothing changed.
fn set_header(m: &mut HeaderMap, name: &str, value: &str) -> (ok: bool)
    requires
        header_name_ok(name@),
        header_value_ok(value@),
        distinct_names(header_entries(*old(m))),
    ensures
        ok ==> header_entries(*final(m)) == entries_insert(
            header_entries(*old(m)),
            ascii_lower(name@),
            encode_utf8(value@),
        ),
        !ok ==> header_entries(*final(m)) == header_entries(*old(m)),
        !ok ==> header_entries(*old(m)).len() >= max_headers(),
        distinct_names(header_entries(*final(m))),
        header_entries(*final(m)).len() <= header_entries(*old(m)).len() + 1,
{
    proof {
        law_insert_entries(header_entries(*m), ascii_lower(name@), encode_utf8(value@));
    }
    header_map_try_insert(m, name, value)
}

proof fn lemma_authorization_literal()
    ensures
        header_name_ok("Authorization"@),
        ascii_lower("Authorization"@) == authorization_name(),
{
    reveal_strlit("Authorization");
    assert(ascii_lower("Authorization"@) =~= authorization_name());
}

proof fn lemma_api_key_literal()
    ensures
        header_name_ok("X-API-Key"@),
        ascii_lower("X-API-Key"@) == api_key_name(),
{
    reveal_strlit("X-API-Key");
    assert(ascii_lower("X-API-Key"@) =~= api_key_name());
}

proof fn lemma_content_type_literal()
    ensures
        header_name_ok("Content-Type"@),
        ascii_lower("Content-Type"@) == content_type_name(),
        header_value_ok("application/json"@),
        "application/json"@ == json_mime(),
{
    reveal_strlit("Content-Type");
    reveal_strlit("application/json");
    assert(ascii_lower("Content-Type"@) =~= content_type_name());
}

proof fn lemma_value_ok_concat(a: Seq<char>, b: Seq<char>)
    requires
        header_value_ok(a),
        header_value_ok(b),
    ensures
        header_value_ok(a + b),
{
    assert forall|i: int| 0 <= i < (a + b).len() implies crate::headers::is_value_char(
        #[trigger] (a + b)[i],
    ) by {
        if i >= a.len() {
            assert((a + b)[i] == b[i - a.len()]);
        } else {
            assert((a + b)[i] == a[i]);
        }
    }
}

/// The text `prefix` followed by `rest`.
fn concat(prefix: Vec<char>, rest: &Vec<char>) -> (s: String)
    ensures
        s@ == prefix@ + rest@,
{
    let mut s = string_of(prefix.as_slice());
    let r = string_of(rest.as_slice());
    s.append(r.as_str());
    s
}

/// `Bearer <token>`.
fn bearer_text(token: &Vec<char>) -> (s: String)
    ensures
        s@ == bearer_value(token@),
{
    concat(vec!['B', 'e', 'a', 'r', 'e', 'r', ' '], token)
}

/// `Basic <credentials in Base64>`, a valid header value.
fn basic_text(credentials: &Vec<char>) -> (s: String)
    ensures
        s@ == basic_value(credentials@),
        header_value_ok(s@),
{
    let c = string_of(credentials.as_slice());
    let encoded = base64_encode(c.as_str().as_bytes());
    let enc_chars = chars_of(encoded.as_str());
    proof {
        crate::base64::law_base64_alphabet(encode_utf8(credentials@));
        let b = base64(encode_utf8(credentials@));
        assert forall|i: int| 0 <= i < b.len() implies crate::headers::is_value_char(
            #[trigger] b[i],
        ) by {}
        lemma_value_ok_concat(seq!['B', 'a', 's', 'i', 'c', ' '], b);
    }
    concat(vec!['B', 'a', 's', 'i', 'c', ' '], &enc_chars)
}

/// Sets the headers that the `Key:Value` arguments give.
fn add_user_headers(m: &mut HeaderMap, headers: &Vec<String>) -> (ok: bool)
    requires
        header_entries(*old(m)) == Seq::<(Seq<char>, Seq<u8>)>::empty(),
    ensures
        ok ==> header_entries(*final(m)) == with_user_headers(Seq::empty(), headers.deep_view()),
        !ok ==> headers.len() > max_headers(),
        distinct_names(header_entries(*final(m))),
        header_entries(*final(m)).len() <= headers.len(),
{
    let mut i: usize = 0;
    while i < headers.len()
        invariant
            i <= headers.len(),
            header_entries(*m) == with_user_headers(
                Seq::empty(),
                headers.deep_view().take(i as int),
            ),
            distinct_names(header_entries(*m)),
            header_entries(*m).len() <= i,
        decreases headers.len() - i,
    {
        assert(headers.deep_view().take(i + 1).drop_last() == headers.deep_view().take(i as int));
        assert(headers.deep_view().take(i + 1).last() == headers[i as int]@);
        match parse_key_value(headers[i].as_str()) {
            Some((k, v)) => {
                if valid_header_name(k.as_str()) && valid_header_value(v.as_str()) {
                    if !set_header(m, k.as_str(), v.as_str()) {
                        return false;
                    }
                }
            },
            None => {},
        }
        i += 1;
    }
    assert(headers.deep_view().take(headers.len() as int) == headers.deep_view());
    true
}

/// Sets what `--auth type:token` gives.
fn add_auth(m: &mut HeaderMap, auth: &Option<String>) -> (ok: bool)
    requires
        distinct_names(header_entries(*old(m))),
        match opt_view(*auth) {
            Some(a) => match split_once(a, ':') {
                Some((ty, tok)) => (ty == bearer_word() || ty == api_key_word())
                    ==> header_value_ok(tok),
                None => true,
            },
            None => true,
        },
    ensures
        ok ==> header_entries(*final(m)) == with_auth(header_entries(*old(m)), opt_view(*auth)),
        !ok ==> header_entries(*old(m)).len() >= max_headers(),
        distinct_names(header_entries(*final(m))),
        header_entries(*final(m)).len() <= header_entries(*old(m)).len() + 1,
{
    match auth {
        Some(a) => {
            let cs = chars_of(a.as_str());
            match split_once_chars(&cs, ':') {
                Some((ty, tok)) => {
                    proof {
                        lemma_authorization_literal();
                        lemma_api_key_literal();
                    }
                    if same_chars(&ty, &vec!['b', 'e', 'a', 'r', 'e', 'r']) {
                        let v = bearer_text(&tok);
                        proof {
                            reveal_strlit("Bearer ");
                            lemma_value_ok_concat(seq!['B', 'e', 'a', 'r', 'e', 'r', ' '], tok@);
                        }
                        let ok = set_header(m, "Authorization", v.as_str());
                        assert(ty@ == bearer_word());
                        return ok;
                    } else if same_chars(&ty, &vec!['b', 'a', 's', 'i', 'c']) {
                        let mut cred = tok.clone();
                        cred.push(':');
                        assert(cred@ == tok@ + seq![':']);
                        let v = basic_text(&cred);
                        let ok = set_header(m, "Authorization", v.as_str());
                        assert(ty@ == basic_word());
                        return ok;
                    } else if same_chars(&ty, &vec!['a', 'p', 'i', '-', 'k', 'e', 'y']) {
                        let v = string_of(tok.as_slice());
                        return set_header(m, "X-API-Key", v.as_str());
                    }
                    true
                },
                None => true,
            }
        },
        None => true,
    }
}

/// Sets what `--bearer`, `--basic` and `--api-key` give, in that order.
fn add_credentials(
    m: &mut HeaderMap,
    bearer: &Option<String>,
    basic: &Option<String>,
    api_key: &Option<String>,
) -> (ok: bool)
    requires
        distinct_names(header_entries(*old(m))),
        match opt_view(*bearer) {
            Some(t) => header_value_ok(t),
            None => true,
        },
        match opt_view(*api_key) {
            Some(k) => header_value_ok(k),
            None => true,
        },
    ensures
        ok ==> header_entries(*final(m)) == with_credentials(
            header_entries(*old(m)),
            opt_view(*bearer),
            opt_view(*basic),
            opt_view(*api_key),
        ),
        !ok ==> header_entries(*old(m)).len() + 2 >= max_headers(),
        distinct_names(header_entries(*final(m))),
        header_entries(*final(m)).len() <= header_entries(*old(m)).len() + 3,
{
    proof {
        lemma_authorization_literal();
        lemma_api_key_literal();
    }
    match bearer {
        Some(t) => {
            let tc = chars_of(t.as_str());
            let v = bearer_text(&tc);
            proof {
                lemma_value_ok_concat(seq!['B', 'e', 'a', 'r', 'e', 'r', ' '], tc@);
            }
            if !set_header(m, "Authorization", v.as_str()) {
                return false;
            }
        },
        None => {},
    }
    match basic {
        Some(c) => {
            let cs = chars_of(c.as_str());
            match split_once_chars(&cs, ':') {
                Some((user, pass)) => {
                    let mut cred = user.clone();
                    cred.push(':');
                    let mut k: usize = 0;
                    while k < pass.len()
                        invariant
                            k <= pass.len(),
                            cred@ == user@ + seq![':'] + pass@.take(k as int),
                        decreases pass.len() - k,
                    {
                        cred.push(pass[k]);
                        assert(pass@.take(k + 1) == pass@.take(k as int).push(pass@[k as int]));
                        k += 1;
                    }
                    assert(pass@.take(pass.len() as int) == pass@);
                    let v = basic_text(&cred);
                    if !set_header(m, "Authorization", v.as_str()) {
                        return false;
                    }
                },
                None => {},
            }
        },
        None => {},
    }
    match api_key {
        Some(key) => set_header(m, "X-API-Key", key.as_str()),
        None => true,
    }
}

/// Whether making the headers succeeds on these arguments, as `credentials_ok` says.
pub fn check_credentials(args: &RequestArgs) -> (b: bool)
    ensures
        b == credentials_ok(*args),
{
    let auth_ok = match &args.auth {
        Some(a) => {
            let cs = chars_of(a.as_str());
            match split_once_chars(&cs, ':') {
                Some((ty, tok)) => {
                    if same_chars(&ty, &vec!['b', 'e', 'a', 'r', 'e', 'r']) || same_chars(
                        &ty,
                        &vec!['a', 'p', 'i', '-', 'k', 'e', 'y'],
                    ) {
                        let t = string_of(tok.as_slice());
                        valid_header_value(t.as_str())
                    } else {
                        true
                    }
                },
                None => true,
            }
        },
        None => true,
    };
    let bearer_ok = match &args.bearer {
        Some(t) => valid_header_value(t.as_str()),
        None => true,
    };
    let key_ok = match &args.api_key {
        Some(k) => valid_header_value(k.as_str()),
        None => true,
    };
    auth_ok && bearer_ok && key_ok
}

/// The headers of the request, as `request_headers` says; `None` when the
/// header map could not take another header, which can only happen with very
/// many header arguments.
pub fn build_headers(args: &RequestArgs) -> (r: Option<HeaderMap>)
    requires
        credentials_ok(*args),
    ensures
        r matches Some(m) ==> header_entries(m) == request_headers(*args) && distinct_names(
            header_entries(m),
        ),
        r is None ==> args.headers.len() + 4 >= max_headers(),
{
    let mut m = header_map_new();
    if !add_user_headers(&mut m, &args.headers) {
        return None;
    }
    if !add_auth(&mut m, &args.auth) {
        return None;
    }
    if !add_credentials(&mut m, &args.bearer, &args.basic, &args.api_key) {
        return None;
    }
    let has_body = args.data_args.len() > 0 || args.body.is_some();
    if has_body && (args.json || args.graphql) {
        proof {
            lemma_content_type_literal();
        }
        if !set_header(&mut m, "Content-Type", "application/json") {
            return None;
        }
    }
    if args.upload.is_some() || args.file.is_some() {
        proof {
            lemma_content_type_literal();
            law_remove_entries(header_entries(m), content_type_name());
        }
        header_map_remove(&mut m, "Content-Type");
    }
    Some(m)
}


/// A JSON body.
pub enum JsonBody {
    /// An object of text fields.
    Fields(crate::json::JsonObject),
    /// A GraphQL request: an object with the query and an object of text variables.
    GraphQl { query: String, variables: crate::json::JsonObject },
}

/// What is sent as the request body.
pub enum BodyType {
    Json(JsonBody),
    Form(FieldMap),
    Raw(String),
}

/// The `key=value` items of the body: the arguments after `--`, else the
/// white-space separated words of `--body`.
pub open spec fn body_items(args: RequestArgs) -> Seq<Seq<char>> {
    if args.data_args.len() > 0 {
        args.data_args.deep_view()
    } else {
        match opt_view(args.body) {
            Some(b) => words(b),
            None => seq![],
        }
    }
}

/// The body as text: the arguments after `--` joined by spaces, else `--body`.
pub open spec fn body_text(args: RequestArgs) -> Seq<char> {
    if args.data_args.len() > 0 {
        join(args.data_args.deep_view(), seq![' '])
    } else {
        match opt_view(args.body) {
            Some(b) => b,
            None => seq![],
        }
    }
}

/// The GraphQL query: `--gql-query`, else the body text.
pub open spec fn graphql_query(args: RequestArgs) -> Seq<char> {
    match opt_view(args.gql_query) {
        Some(q) => q,
        None => body_text(args),
    }
}

/// The body made from the arguments: none without body input; with it, a
/// GraphQL request under `--gql`, else a JSON object of the fields under
/// `--json`, else a form of the fields under `--form`, else the text.
pub open spec fn body_matches(args: RequestArgs, r: Option<BodyType>) -> bool {
    match r {
        None => !has_body_input(args),
        Some(BodyType::Json(JsonBody::GraphQl { query, variables })) => {
            &&& has_body_input(args) && args.graphql
            &&& query@ == graphql_query(args)
            &&& json_text_fields(variables) == fields_of(args.gql_vars.deep_view())
            &&& json_keys(variables) == fields_of(args.gql_vars.deep_view()).dom()
            &&& json_object_members(variables) == no_objects()
        },
        Some(BodyType::Json(JsonBody::Fields(m))) => {
            &&& has_body_input(args) && args.json && !args.graphql
            &&& json_text_fields(m) == fields_of(body_items(args))
            &&& json_keys(m) == fields_of(body_items(args)).dom()
            &&& json_object_members(m) == no_objects()
        },
        Some(BodyType::Form(m)) => {
            &&& has_body_input(args) && !args.json && !args.graphql && args.form
            &&& m@ == fields_of(body_items(args))
        },
        Some(BodyType::Raw(s)) => {
            &&& has_body_input(args) && !args.json && !args.graphql && !args.form
            &&& s@ == body_text(args)
        },
    }
}

/// Which body a request gets: none without a body given after `--` or with
/// `--body`; with one, a GraphQL request under `--gql` whatever else is asked,
/// else an object of fields under `--json`, else a form under `--form`, else
/// the text as it was given (the arguments after `--` joined by spaces, or
/// `--body` as it is).
pub proof fn law_body_kind(args: RequestArgs, r: Option<BodyType>)
    requires
        body_matches(args, r),
    ensures
        r is None <==> (args.data_args.len() == 0 && args.body is None),
        r is Some && args.graphql ==> r matches Some(BodyType::Json(JsonBody::GraphQl { .. })),
        r is Some && args.json && !args.graphql ==> r matches Some(
            BodyType::Json(JsonBody::Fields(_)),
        ),
        r is Some && args.form && !args.json && !args.graphql ==> r matches Some(BodyType::Form(_)),
        r is Some && !args.form && !args.json && !args.graphql ==> r matches Some(BodyType::Raw(_)),
        r matches Some(BodyType::Raw(t)) ==> (args.data_args.len() == 0 ==> opt_view(args.body)
            == Some(t@)),
        r matches Some(BodyType::Raw(t)) ==> (args.data_args.len() == 1 ==> t@
            == args.data_args@[0]@),
        r matches Some(BodyType::Raw(t)) ==> (args.data_args.len() == 2 ==> t@
            == args.data_args@[0]@ + seq![' '] + args.data_args@[1]@),
{
    if args.data_args.len() == 1 || args.data_args.len() == 2 {
        let d = args.data_args.deep_view();
        assert(d.drop_last().len() == d.len() - 1);
        assert(d[0] == args.data_args@[0]@);
        if d.len() == 2 {
            assert(d[1] == args.data_args@[1]@);
            assert(d.drop_last() =~= seq![d[0]]);
            assert(join(seq![d[0]], seq![' ']) == d[0]);
            assert(join(d, seq![' ']) == join(d.drop_last(), seq![' ']) + seq![' '] + d.last());
        }
    }
}

/// The body of the request.
pub fn build_body(args: &RequestArgs) -> (r: Option<BodyType>)
    ensures
        body_matches(*args, r),
{
    let items: Vec<String>;
    let text: String;
    if args.data_args.len() > 0 {
        items = args.data_args.clone();
        proof {
            reveal_strlit(" ");
        }
        text = join_strings(&args.data_args, " ");
        assert(" "@ == seq![' ']);
    } else {
        match &args.body {
            Some(b) => {
                items = split_whitespace(b.as_str());
                text = b.clone();
            },
            None => {
                return None;
            },
        }
    }
    assert(items.deep_view() == body_items(*args));
    assert(text@ == body_text(*args));
    if args.json || args.graphql {
        if args.graphql {
            let variables = parse_body_args(&args.gql_vars);
            let query = match &args.gql_query {
                Some(q) => q.clone(),
                None => text,
            };
            Some(BodyType::Json(JsonBody::GraphQl { query, variables }))
        } else {
            Some(BodyType::Json(JsonBody::Fields(parse_body_args(&items))))
        }
    } else if args.form {
        Some(BodyType::Form(parse_form_args(&items)))
    } else {
        Some(BodyType::Raw(text))
    }
}

pub open spec fn query_key() -> Seq<char> {
    seq!['q', 'u', 'e', 'r', 'y']
}

pub open spec fn variables_key() -> Seq<char> {
    seq!['v', 'a', 'r', 'i', 'a', 'b', 'l', 'e', 's']
}

/// A JSON body as `build_body` makes it: its objects hold texts only.
pub open spec fn json_body_ok(body: JsonBody) -> bool {
    match body {
        JsonBody::Fields(m) => texts_only(m),
        JsonBody::GraphQl { variables, .. } => texts_only(variables),
    }
}

/// The text members of the JSON object that a body is: the fields, or the
/// GraphQL query under `query`.
pub open spec fn body_texts(body: JsonBody) -> Map<Seq<char>, Seq<char>> {
    match body {
        JsonBody::Fields(m) => json_text_fields(m),
        JsonBody::GraphQl { query, .. } => map![query_key() => query@],
    }
}

/// The object members of the JSON object that a body is: none, or the
/// GraphQL variables under `variables`.
pub open spec fn body_objects(body: JsonBody) -> Map<Seq<char>, Map<Seq<char>, Seq<char>>> {
    match body {
        JsonBody::Fields(_) => no_objects(),
        JsonBody::GraphQl { variables, .. } => map![variables_key() => json_text_fields(variables)],
    }
}

/// The JSON object that the body is.
fn json_body_object(body: &JsonBody) -> (m: JsonObject)
    requires
        json_body_ok(*body),
    ensures
        described(m),
        json_text_fields(m) == body_texts(*body),
        json_object_members(m) == body_objects(*body),
{
    match body {
        JsonBody::Fields(f) => {
            let m = json_map_clone(f);
            assert(json_text_fields(m).dom() + no_objects().dom() == json_text_fields(m).dom());
            m
        },
        JsonBody::GraphQl { query, variables } => {
            let mut m = json_map_new();
            let qk = string_of(vec!['q', 'u', 'e', 'r', 'y'].as_slice());
            json_map_insert_text(&mut m, qk, query.clone());
            let vk = string_of(vec!['v', 'a', 'r', 'i', 'a', 'b', 'l', 'e', 's'].as_slice());
            json_map_insert_object(&mut m, vk, json_map_clone(variables));
            assert(query_key() != variables_key());
            assert(json_text_fields(m) =~= map![query_key() => query@]);
            assert(json_object_members(m) =~= map![variables_key() => json_text_fields(*variables)]);
            assert(json_keys(m) =~= json_text_fields(m).dom() + json_object_members(m).dom());
            m
        },
    }
}

/// The JSON text sent for the body: the compact JSON of the object of fields,
/// or of `{"query": ..., "variables": {...}}` for GraphQL.
pub fn json_body_text(body: &JsonBody) -> (r: String)
    requires
        json_body_ok(*body),
    ensures
        r@ == json_object_text(body_texts(*body), body_objects(*body)),
{
    json_object_to_string(json_body_object(body))
}

/// The pretty JSON text of the body, as a dry run shows it.
pub fn json_body_pretty(body: &JsonBody) -> (r: String)
    requires
        json_body_ok(*body),
    ensures
        r@ == json_object_pretty(body_texts(*body), body_objects(*body)),
{
    json_object_to_pretty(json_body_object(body))
}

/// The body's text as the curl command line sends it: the JSON text of a
/// JSON body, the text of a raw body, none for a form.
pub fn curl_body_text(body: &Option<BodyType>) -> (r: Option<String>)
    requires
        *body matches Some(BodyType::Json(j)) ==> json_body_ok(j),
    ensures
        match *body {
            Some(BodyType::Json(j)) => r matches Some(t) && t@ == json_object_text(
                body_texts(j),
                body_objects(j),
            ),
            Some(BodyType::Raw(s)) => r matches Some(t) && t@ == s@,
            _ => r is None,
        },
{
    match body {
        Some(BodyType::Json(j)) => Some(json_body_text(j)),
        Some(BodyType::Raw(s)) => Some(s.clone()),
        _ => None,
    }
}

/// The method of the request: the one asked for, else POST when there is a
/// body, a body format or a file to send, else GET.
pub open spec fn request_method(args: RequestArgs) -> crate::method::HttpMethod {
    match args.method {
        Some(m) => m,
        None => if args.data_args.len() > 0 || args.body is Some || args.json || args.form
            || args.upload is Some || args.file is Some {
            crate::method::HttpMethod::Post
        } else {
            crate::method::HttpMethod::Get
        },
    }
}

/// The method of the request.
pub fn choose_method(args: &RequestArgs) -> (m: crate::method::HttpMethod)
    ensures
        m == request_method(*args),
{
    match args.method {
        Some(m) => m,
        None => if args.data_args.len() > 0 || args.body.is_some() || args.json || args.form
            || args.upload.is_some() || args.file.is_some() {
            crate::method::HttpMethod::Post
        } else {
            crate::method::HttpMethod::Get
        },
    }
}

/// With no method asked for, a request with a body, given after `--` or with
/// `--body`, is sent as POST; so is one under `--json` or `--form` or with a
/// file to upload. Without any of these it is sent as GET, and a method asked
/// for is always the one sent.
pub proof fn law_method_of_request(args: RequestArgs)
    ensures
        args.method is None && (args.data_args.len() > 0 || args.body is Some)
            ==> request_method(args) == crate::method::HttpMethod::Post,
        args.method is None && (args.json || args.form || args.upload is Some || args.file is Some)
            ==> request_method(args) == crate::method::HttpMethod::Post,
        args.method is None && args.data_args.len() == 0 && args.body is None && !args.json
            && !args.form && args.upload is None && args.file is None ==> request_method(args)
            == crate::method::HttpMethod::Get,
        args.method matches Some(m) ==> request_method(args) == m,
{
}

/// Whenever a body is made for a request and no method was asked for, the
/// request is sent as POST.
pub proof fn law_body_is_posted(args: RequestArgs, b: BodyType)
    requires
        body_matches(args, Some(b)),
        args.method is None,
    ensures
        request_method(args) == crate::method::HttpMethod::Post,
{
}

/// The file to upload: `--file`, else `--upload`.
pub fn upload_path(args: &RequestArgs) -> (r: Option<String>)
    ensures
        opt_view(r) == if args.file is Some {
            opt_view(args.file)
        } else {
            opt_view(args.upload)
        },
{
    match &args.file {
        Some(f) => Some(f.clone()),
        None => match &args.upload {
            Some(u) => Some(u.clone()),
            None => None,
        },
    }
}

/// The URL to request: the positional one unless empty, else `--url`, else
/// `--query`; none when none was given.
pub open spec fn request_url(args: RequestArgs) -> Option<Seq<char>> {
    if args.url@.len() > 0 {
        Some(args.url@)
    } else if args.url_flag is Some {
        opt_view(args.url_flag)
    } else {
        opt_view(args.query)
    }
}

/// The URL to request, if one was given.
pub fn resolve_url(args: &RequestArgs) -> (r: Option<String>)
    ensures
        opt_view(r) == request_url(*args),
{
    if !args.url.as_str().is_empty() {
        Some(args.url.clone())
    } else if let Some(u) = &args.url_flag {
        Some(u.clone())
    } else if let Some(q) = &args.query {
        Some(q.clone())
    } else {
        None
    }
}


/// The arguments agree on everything that goes into the headers but the
/// credentials.
pub open spec fn same_but_credentials(a: RequestArgs, b: RequestArgs) -> bool {
    &&& a.headers.deep_view() == b.headers.deep_view()
    &&& has_body_input(a) == has_body_input(b)
    &&& a.json == b.json && a.graphql == b.graphql
    &&& sends_file(a) == sends_file(b)
}

proof fn lemma_auth_split(word: Seq<char>, t: Seq<char>)
    requires
        !word.contains(':'),
    ensures
        split_once(word + seq![':'] + t, ':') == Some((word, t)),
{
    let s = word + seq![':'] + t;
    let i = word.len() as int;
    assert(s[i] == ':');
    assert forall|j: int| 0 <= j < i implies s[j] != ':' by {
        assert(s[j] == word[j]);
    }
    crate::text::lemma_split_once_at(s, ':', i);
    assert(s.take(i) == word);
    assert(s.skip(i + 1) == t);
}

/// `--auth bearer:TOKEN` sets the same headers as `--bearer TOKEN`.
pub proof fn law_auth_bearer_is_bearer_flag(a: RequestArgs, b: RequestArgs, t: Seq<char>)
    requires
        same_but_credentials(a, b),
        opt_view(a.auth) == Some(bearer_word() + seq![':'] + t),
        a.bearer is None && a.basic is None && a.api_key is None,
        b.auth is None && b.basic is None && b.api_key is None,
        opt_view(b.bearer) == Some(t),
    ensures
        request_headers(a) == request_headers(b),
{
    lemma_auth_split(bearer_word(), t);
    assert(bearer_word() != basic_word());
}

/// `--auth api-key:KEY` sets the same headers as `--api-key KEY`.
pub proof fn law_auth_api_key_is_api_key_flag(a: RequestArgs, b: RequestArgs, t: Seq<char>)
    requires
        same_but_credentials(a, b),
        opt_view(a.auth) == Some(api_key_word() + seq![':'] + t),
        a.bearer is None && a.basic is None && a.api_key is None,
        b.auth is None && b.bearer is None && b.basic is None,
        opt_view(b.api_key) == Some(t),
    ensures
        request_headers(a) == request_headers(b),
{
    lemma_auth_split(api_key_word(), t);
    assert(api_key_word() != basic_word());
    assert(api_key_word() != bearer_word());
}


/// A header name as a header map stores it: a valid name in small letters.
pub open spec fn stored_name(n: Seq<char>) -> bool {
    header_name_ok(n) && ascii_lower(n) == n
}

/// Every name of the entries is stored as a header map stores names.
pub open spec fn all_stored_names(e: Seq<(Seq<char>, Seq<u8>)>) -> bool {
    forall|i: int| 0 <= i < e.len() ==> stored_name(#[trigger] e[i].0)
}

proof fn lemma_lower_stored(k: Seq<char>)
    requires
        header_name_ok(k),
    ensures
        stored_name(ascii_lower(k)),
{
    let l = ascii_lower(k);
    assert forall|i: int| 0 <= i < l.len() implies crate::headers::is_token_char(#[trigger] l[i]) by {
        assert(crate::headers::is_token_char(k[i]));
    }
    assert(ascii_lower(l) =~= l);
}

proof fn lemma_insert_stored(e: Seq<(Seq<char>, Seq<u8>)>, n: Seq<char>, v: Seq<u8>)
    requires
        all_stored_names(e),
        stored_name(n),
    ensures
        all_stored_names(entries_insert(e, n, v)),
{
    let t = entries_insert(e, n, v);
    if exists|i: int| crate::headers::name_at(e, n, i) {
        let i = choose|i: int| crate::headers::name_at(e, n, i);
        assert forall|j: int| 0 <= j < t.len() implies stored_name(#[trigger] t[j].0) by {
            if j != i {
                assert(t[j] == e[j]);
            }
        }
    } else {
        assert forall|j: int| 0 <= j < t.len() implies stored_name(#[trigger] t[j].0) by {
            if j < e.len() {
                assert(t[j] == e[j]);
            }
        }
    }
}

proof fn lemma_remove_stored(e: Seq<(Seq<char>, Seq<u8>)>, n: Seq<char>)
    requires
        all_stored_names(e),
    ensures
        all_stored_names(entries_remove(e, n)),
{
    let t = entries_remove(e, n);
    if exists|i: int| crate::headers::name_at(e, n, i) {
        let i = choose|i: int| crate::headers::name_at(e, n, i);
        assert forall|j: int| 0 <= j < t.len() implies stored_name(#[trigger] t[j].0) by {
            if j == i {
                assert(t[j] == e[e.len() - 1]);
            } else {
                assert(t[j] == e[j]);
            }
        }
    }
}

proof fn lemma_user_headers_stored(hs: Seq<Seq<char>>)
    ensures
        all_stored_names(with_user_headers(Seq::empty(), hs)),
    decreases hs.len(),
{
    if hs.len() > 0 {
        lemma_user_headers_stored(hs.drop_last());
        let pre = with_user_headers(Seq::empty(), hs.drop_last());
        match key_value(hs.last()) {
            Some((k, v)) => {
                if header_name_ok(k) && header_value_ok(v) {
                    lemma_lower_stored(k);
                    lemma_insert_stored(pre, ascii_lower(k), encode_utf8(v));
                }
            },
            None => {},
        }
    }
}

proof fn lemma_fixed_names_stored()
    ensures
        stored_name(authorization_name()),
        stored_name(api_key_name()),
        stored_name(content_type_name()),
{
    assert(ascii_lower(authorization_name()) =~= authorization_name());
    assert(ascii_lower(api_key_name()) =~= api_key_name());
    assert(ascii_lower(content_type_name()) =~= content_type_name());
}

/// Every header of a request has a valid name in small letters, and no name
/// occurs twice.
pub proof fn law_request_header_names(args: RequestArgs)
    ensures
        all_stored_names(request_headers(args)),
        distinct_names(request_headers(args)),
{
    lemma_credential_headers(args);
    lemma_fixed_names_stored();
    let e2 = credential_headers(args);
    let e3 = if sends_json(args) {
        entries_insert(e2, content_type_name(), encode_utf8(json_mime()))
    } else {
        e2
    };
    lemma_insert_stored(e2, content_type_name(), encode_utf8(json_mime()));
    law_insert_entries(e2, content_type_name(), encode_utf8(json_mime()));
    lemma_remove_stored(e3, content_type_name());
    law_remove_entries(e3, content_type_name());
}

/// The headers of a request before its content type is settled.
pub open spec fn credential_headers(args: RequestArgs) -> Seq<(Seq<char>, Seq<u8>)> {
    with_credentials(
        with_auth(with_user_headers(Seq::empty(), args.headers.deep_view()), opt_view(args.auth)),
        opt_view(args.bearer),
        opt_view(args.basic),
        opt_view(args.api_key),
    )
}

/// The headers of a request after the header arguments and `--auth`.
pub open spec fn auth_headers(args: RequestArgs) -> Seq<(Seq<char>, Seq<u8>)> {
    with_auth(with_user_headers(Seq::empty(), args.headers.deep_view()), opt_view(args.auth))
}

proof fn lemma_auth_headers(args: RequestArgs)
    ensures
        all_stored_names(auth_headers(args)),
        distinct_names(auth_headers(args)),
{
    lemma_fixed_names_stored();
    let e0 = with_user_headers(Seq::empty(), args.headers.deep_view());
    lemma_user_headers_stored(args.headers.deep_view());
    lemma_user_headers_distinct(args.headers.deep_view());
    let e1 = with_auth(e0, opt_view(args.auth));
    match opt_view(args.auth) {
        Some(a) => match split_once(a, ':') {
            Some((ty, tok)) => {
                lemma_insert_stored(e0, authorization_name(), encode_utf8(bearer_value(tok)));
                lemma_insert_stored(e0, authorization_name(), encode_utf8(basic_value(tok + seq![':'])));
                lemma_insert_stored(e0, api_key_name(), encode_utf8(tok));
                law_insert_entries(e0, authorization_name(), encode_utf8(bearer_value(tok)));
                law_insert_entries(e0, authorization_name(), encode_utf8(basic_value(tok + seq![':'])));
                law_insert_entries(e0, api_key_name(), encode_utf8(tok));
            },
            None => {},
        },
        None => {},
    }
}

proof fn lemma_credential_headers(args: RequestArgs)
    ensures
        all_stored_names(credential_headers(args)),
        distinct_names(credential_headers(args)),
{
    lemma_auth_headers(args);
    lemma_fixed_names_stored();
    let e1 = auth_headers(args);
    assert(all_stored_names(e1) && distinct_names(e1));
    let ea = match opt_view(args.bearer) {
        Some(t) => entries_insert(e1, authorization_name(), encode_utf8(bearer_value(t))),
        None => e1,
    };
    match opt_view(args.bearer) {
        Some(t) => {
            lemma_insert_stored(e1, authorization_name(), encode_utf8(bearer_value(t)));
            law_insert_entries(e1, authorization_name(), encode_utf8(bearer_value(t)));
        },
        None => {},
    }
    let eb = match opt_view(args.basic) {
        Some(c) => match split_once(c, ':') {
            Some((user, pass)) => entries_insert(
                ea,
                authorization_name(),
                encode_utf8(basic_value(user + seq![':'] + pass)),
            ),
            None => ea,
        },
        None => ea,
    };
    match opt_view(args.basic) {
        Some(c) => match split_once(c, ':') {
            Some((user, pass)) => {
                let v = encode_utf8(basic_value(user + seq![':'] + pass));
                lemma_insert_stored(ea, authorization_name(), v);
                law_insert_entries(ea, authorization_name(), v);
            },
            None => {},
        },
        None => {},
    }
    let e2 = with_credentials(e1, opt_view(args.bearer), opt_view(args.basic), opt_view(args.api_key));
    match opt_view(args.api_key) {
        Some(k) => {
            lemma_insert_stored(eb, api_key_name(), encode_utf8(k));
            law_insert_entries(eb, api_key_name(), encode_utf8(k));
        },
        None => {},
    }
    assert(all_stored_names(e2) && distinct_names(e2));
}

/// Settling the content type leaves every other header as the credentials
/// left it.
proof fn lemma_content_type_keeps(args: RequestArgs, name: Seq<char>)
    requires
        name != content_type_name(),
    ensures
        entry_value(request_headers(args), name) == entry_value(credential_headers(args), name),
{
    lemma_credential_headers(args);
    let e2 = credential_headers(args);
    let e3 = if sends_json(args) {
        entries_insert(e2, content_type_name(), encode_utf8(json_mime()))
    } else {
        e2
    };
    law_insert_entries(e2, content_type_name(), encode_utf8(json_mime()));
    law_remove_entries(e3, content_type_name());
    assert(entry_value(entries_remove(e3, content_type_name()), name) == entry_value(e3, name));
}

/// `--bearer TOKEN` without `--basic` sends `authorization: Bearer TOKEN`;
/// `--basic USER:PASSWORD` sends `authorization: Basic ` then the Base64 of the
/// UTF-8 bytes of `USER:PASSWORD`; `--api-key KEY` sends `x-api-key: KEY`;
/// each whatever the header arguments and `--auth` set.
pub proof fn law_credential_values(args: RequestArgs)
    ensures
        args.basic is None && args.bearer is Some ==> entry_value(
            request_headers(args),
            seq!['a', 'u', 't', 'h', 'o', 'r', 'i', 'z', 'a', 't', 'i', 'o', 'n'],
        ) == Some(encode_utf8(seq!['B', 'e', 'a', 'r', 'e', 'r', ' '] + args.bearer->0@)),
        args.basic is Some && args.basic->0@.contains(':') ==> entry_value(
            request_headers(args),
            seq!['a', 'u', 't', 'h', 'o', 'r', 'i', 'z', 'a', 't', 'i', 'o', 'n'],
        ) == Some(
            encode_utf8(
                seq!['B', 'a', 's', 'i', 'c', ' '] + base64(encode_utf8(args.basic->0@)),
            ),
        ),
        args.api_key is Some ==> entry_value(
            request_headers(args),
            seq!['x', '-', 'a', 'p', 'i', '-', 'k', 'e', 'y'],
        ) == Some(encode_utf8(args.api_key->0@)),
{
    lemma_auth_headers(args);
    lemma_content_type_keeps(args, authorization_name());
    lemma_content_type_keeps(args, api_key_name());
    assert(authorization_name() != api_key_name());
    let e1 = auth_headers(args);
    let ea = match opt_view(args.bearer) {
        Some(t) => entries_insert(e1, authorization_name(), encode_utf8(bearer_value(t))),
        None => e1,
    };
    match opt_view(args.bearer) {
        Some(t) => {
            law_insert_entries(e1, authorization_name(), encode_utf8(bearer_value(t)));
        },
        None => {},
    }
    let eb = match opt_view(args.basic) {
        Some(c) => match split_once(c, ':') {
            Some((user, pass)) => entries_insert(
                ea,
                authorization_name(),
                encode_utf8(basic_value(user + seq![':'] + pass)),
            ),
            None => ea,
        },
        None => ea,
    };
    match opt_view(args.basic) {
        Some(c) => match split_once(c, ':') {
            Some((user, pass)) => {
                let v = encode_utf8(basic_value(user + seq![':'] + pass));
                law_insert_entries(ea, authorization_name(), v);
                crate::text::lemma_first_index_exists(c, ':');
                assert(user + seq![':'] + pass =~= c);
            },
            None => {},
        },
        None => {},
    }
    match opt_view(args.api_key) {
        Some(k) => {
            law_insert_entries(eb, api_key_name(), encode_utf8(k));
            assert(entry_value(entries_insert(eb, api_key_name(), encode_utf8(k)), authorization_name())
                == entry_value(eb, authorization_name()));
        },
        None => {},
    }
}

/// The last `Key:Value` header argument, with a valid name and value, sets
/// that header, named in small letters, when no credentials are given and the
/// name is not the content type.
pub proof fn law_last_header_argument(args: RequestArgs, k: Seq<char>, v: Seq<char>)
    requires
        args.headers.len() > 0,
        key_value(args.headers@.last()@) == Some((k, v)),
        header_name_ok(k),
        header_value_ok(v),
        args.auth is None && args.bearer is None && args.basic is None && args.api_key is None,
        ascii_lower(k) != seq!['c', 'o', 'n', 't', 'e', 'n', 't', '-', 't', 'y', 'p', 'e'],
    ensures
        entry_value(request_headers(args), ascii_lower(k)) == Some(encode_utf8(v)),
{
    let hs = args.headers.deep_view();
    assert(hs.last() == args.headers@.last()@);
    lemma_user_headers_distinct(hs.drop_last());
    let pre = with_user_headers(Seq::empty(), hs.drop_last());
    law_insert_entries(pre, ascii_lower(k), encode_utf8(v));
    lemma_content_type_keeps(args, ascii_lower(k));
}

/// A request whose body is JSON (an object of fields under `--json`, or a
/// GraphQL request under `--gql`) and that uploads no file carries the header
/// `content-type: application/json`, whatever header arguments came before.
pub proof fn law_json_body_content_type(args: RequestArgs, j: JsonBody)
    requires
        body_matches(args, Some(BodyType::Json(j))),
        args.upload is None,
        args.file is None,
    ensures
        entry_value(request_headers(args), seq!['c', 'o', 'n', 't', 'e', 'n', 't', '-', 't', 'y', 'p', 'e'])
            == Some(
            encode_utf8(
                seq!['a', 'p', 'p', 'l', 'i', 'c', 'a', 't', 'i', 'o', 'n', '/', 'j', 's', 'o', 'n'],
            ),
        ),
{
    lemma_credential_headers(args);
    law_insert_entries(credential_headers(args), content_type_name(), encode_utf8(json_mime()));
}

/// A request that uploads a file carries no content type of its own making.
pub proof fn law_upload_has_no_content_type(args: RequestArgs)
    requires
        args.upload is Some || args.file is Some,
    ensures
        entry_value(request_headers(args), seq!['c', 'o', 'n', 't', 'e', 'n', 't', '-', 't', 'y', 'p', 'e'])
            is None,
{
    lemma_credential_headers(args);
    let e2 = credential_headers(args);
    let e3 = if sends_json(args) {
        entries_insert(e2, content_type_name(), encode_utf8(json_mime()))
    } else {
        e2
    };
    law_insert_entries(e2, content_type_name(), encode_utf8(json_mime()));
    law_remove_entries(e3, content_type_name());
}

proof fn lemma_user_headers_distinct(hs: Seq<Seq<char>>)
    ensures
        distinct_names(with_user_headers(Seq::empty(), hs)),
    decreases hs.len(),
{
    if hs.len() > 0 {
        lemma_user_headers_distinct(hs.drop_last());
        let pre = with_user_headers(Seq::empty(), hs.drop_last());
        match key_value(hs.last()) {
            Some((k, v)) => {
                law_insert_entries(pre, ascii_lower(k), encode_utf8(v));
            },
            None => {},
        }
    }
}

} // verus!
