use vstd::prelude::*;

use crate::kv::{join, join_strings, key_value, parse_key_value};
use crate::text::push_char;
use crate::urlencoding::{encode, url_encode};

verus! {

/// `key=value` with both sides percent-encoded, for each parameter that is a
/// pair; the others are left out.
pub open spec fn query_pairs(params: Seq<Seq<char>>) -> Seq<Seq<char>>
    decreases params.len(),
{
    if params.len() == 0 {
        seq![]
    } else {
        let pre = query_pairs(params.drop_last());
        match key_value(params.last()) {
            Some((k, v)) => pre.push(url_encode(k) + seq!['='] + url_encode(v)),
            None => pre,
        }
    }
}

/// The query string that the parameters make: the encoded pairs joined by `&`.
pub open spec fn query_string(params: Seq<Seq<char>>) -> Seq<char> {
    join(query_pairs(params), seq!['&'])
}

/// Builds the query string from `key=value` parameters.
pub fn build_query_string(params: &Vec<String>) -> (r: String)
    ensures
        r@ == query_string(params.deep_view()),
{
    let mut pairs: Vec<String> = Vec::new();
    let mut i: usize = 0;
    while i < params.len()
        invariant
            i <= params.len(),
            pairs.deep_view() == query_pairs(params.deep_view().take(i as int)),
        decreases params.len() - i,
    {
        assert(params.deep_view().take(i + 1).drop_last() == params.deep_view().take(i as int));
        assert(params.deep_view().take(i + 1).last() == params[i as int]@);
        match parse_key_value(params[i].as_str()) {
            Some((k, v)) => {
                let mut pair = encode(k.as_str());
                push_char(&mut pair, '=');
                let ev = encode(v.as_str());
                pair.append(ev.as_str());
                let ghost pre = pairs.deep_view();
                pairs.push(pair);
                assert(pairs.deep_view() == pre.push(pair@));
                assert(pair@ == url_encode(k@) + seq!['='] + url_encode(v@));
                assert(key_value(params.deep_view().take(i + 1).last()) == Some((k@, v@)));
            },
            None => {},
        }
        i += 1;
    }
    assert(params.deep_view().take(params.len() as int) == params.deep_view());
    let sep = "&";
    proof {
        reveal_strlit("&");
        assert(sep@ == seq!['&']);
    }
    join_strings(&pairs, sep)
}

proof fn lemma_query_pairs_concat(xs: Seq<Seq<char>>, ys: Seq<Seq<char>>)
    ensures
        query_pairs(xs + ys) == query_pairs(xs) + query_pairs(ys),
    decreases ys.len(),
{
    if ys.len() == 0 {
        assert(xs + ys == xs);
        assert(query_pairs(xs) + query_pairs(ys) == query_pairs(xs));
    } else {
        assert((xs + ys).drop_last() == xs + ys.drop_last());
        assert((xs + ys).last() == ys.last());
        lemma_query_pairs_concat(xs, ys.drop_last());
        match key_value(ys.last()) {
            Some((k, v)) => {
                let p = url_encode(k) + seq!['='] + url_encode(v);
                assert(query_pairs(xs) + query_pairs(ys.drop_last()).push(p) == (query_pairs(xs)
                    + query_pairs(ys.drop_last())).push(p));
            },
            None => {},
        }
    }
}

proof fn lemma_query_pairs_nonempty(xs: Seq<Seq<char>>)
    ensures
        forall|i: int| 0 <= i < query_pairs(xs).len() ==> #[trigger] query_pairs(xs)[i].len() > 0,
    decreases xs.len(),
{
    if xs.len() > 0 {
        lemma_query_pairs_nonempty(xs.drop_last());
        let pre = query_pairs(xs.drop_last());
        match key_value(xs.last()) {
            Some((k, v)) => {
                let p = url_encode(k) + seq!['='] + url_encode(v);
                assert(p.len() > 0);
                assert forall|i: int| 0 <= i < pre.push(p).len() implies #[trigger] pre.push(
                    p,
                )[i].len() > 0 by {
                    if i < pre.len() {
                        assert(pre.push(p)[i] == pre[i]);
                    }
                }
            },
            None => {},
        }
    }
}

proof fn lemma_join_concat(a: Seq<Seq<char>>, b: Seq<Seq<char>>, sep: Seq<char>)
    ensures
        join(a + b, sep) == if a.len() == 0 {
            join(b, sep)
        } else if b.len() == 0 {
            join(a, sep)
        } else {
            join(a, sep) + sep + join(b, sep)
        },
    decreases b.len(),
{
    if b.len() == 0 {
        assert(a + b == a);
    } else if a.len() == 0 {
        assert(a + b == b);
    } else {
        assert((a + b).drop_last() == a + b.drop_last());
        assert((a + b).last() == b.last());
        lemma_join_concat(a, b.drop_last(), sep);
        if b.len() == 1 {
            assert(b.drop_last().len() == 0);
            assert(a + b.drop_last() == a);
            assert(join(b, sep) == b[0]);
        }
    }
}

proof fn lemma_join_empty(a: Seq<Seq<char>>, sep: Seq<char>)
    requires
        forall|i: int| 0 <= i < a.len() ==> #[trigger] a[i].len() > 0,
    ensures
        join(a, sep).len() == 0 <==> a.len() == 0,
{
    if a.len() == 1 {
        assert(a[0].len() > 0);
    } else if a.len() > 1 {
        assert(a.last().len() > 0);
        assert(a[a.len() - 1].len() > 0);
    }
}

/// The query string of two lists of parameters is those of each, joined by
/// `&` when both are non-empty.
pub proof fn law_query_string_concat(xs: Seq<Seq<char>>, ys: Seq<Seq<char>>)
    ensures
        query_string(xs + ys) == if query_string(xs).len() == 0 {
            query_string(ys)
        } else if query_string(ys).len() == 0 {
            query_string(xs)
        } else {
            query_string(xs) + seq!['&'] + query_string(ys)
        },
{
    lemma_query_pairs_concat(xs, ys);
    lemma_query_pairs_nonempty(xs);
    lemma_query_pairs_nonempty(ys);
    lemma_join_empty(query_pairs(xs), seq!['&']);
    lemma_join_empty(query_pairs(ys), seq!['&']);
    lemma_join_concat(query_pairs(xs), query_pairs(ys), seq!['&']);
}

/// One parameter `key=value` (a key without `=`) makes the query string
/// `encode(key)=encode(value)`, and a parameter with neither `=` nor `:`
/// adds nothing to the query string.
pub proof fn law_query_string_param(xs: Seq<Seq<char>>, k: Seq<char>, v: Seq<char>)
    ensures
        !k.contains('=') ==> query_string(seq![k + seq!['='] + v]) == url_encode(k) + seq!['=']
            + url_encode(v),
        !k.contains('=') && !k.contains(':') ==> query_string(xs.push(k)) == query_string(xs),
{
    crate::kv::law_key_value_forms(k, v);
    let one = seq![k + seq!['='] + v];
    assert(one.drop_last() =~= Seq::<Seq<char>>::empty());
    assert(one.last() == k + seq!['='] + v);
    if !k.contains('=') {
        let p = url_encode(k) + seq!['='] + url_encode(v);
        assert(query_pairs(Seq::<Seq<char>>::empty()) =~= Seq::<Seq<char>>::empty());
        assert(query_pairs(one) =~= seq![p]);
        assert(seq![p].len() == 1);
        assert(join(seq![p], seq!['&']) == seq![p][0]);
    }
    assert(xs.push(k).drop_last() =~= xs);
}

/// A URL with a `?` is requested as it is, as is one without parameters;
/// otherwise `?` and the query string of the parameters follow the URL.
pub proof fn law_url_query(url: Seq<char>, params: Seq<Seq<char>>)
    ensures
        url.contains('?') ==> url_with_query(url, params) == url,
        params.len() == 0 ==> url_with_query(url, params) == url,
        !url.contains('?') && params.len() > 0 ==> url_with_query(url, params) == url + seq!['?']
            + query_string(params),
{
}

/// The URL that is requested: the given one, with `?` and the query string
/// added when it has no `?` yet and there are parameters.
pub open spec fn url_with_query(url: Seq<char>, params: Seq<Seq<char>>) -> Seq<char> {
    if url.contains('?') || params.len() == 0 {
        url
    } else {
        url + seq!['?'] + query_string(params)
    }
}

/// Adds the query parameters to the URL, unless it has a query already.
pub fn final_url(url: String, params: &Vec<String>) -> (r: String)
    ensures
        r@ == url_with_query(url@, params.deep_view()),
{
    let cs = crate::text::chars_of(url.as_str());
    let has_query = match crate::text::find_char(&cs, '?') {
        Some(_) => true,
        None => false,
    };
    if has_query || params.len() == 0 {
        url
    } else {
        let mut r = url;
        push_char(&mut r, '?');
        let q = build_query_string(params);
        r.append(q.as_str());
        r
    }
}

} // verus!
