use vstd::prelude::*;

use crate::text::{
    chars_of, contains, contains_text, decimal, decimal_string, has_prefix, lemma_split_once_at,
    same_chars, slice_chars, split_once, split_once_chars, starts_with,
};

verus! {

pub open spec fn status_eq_prefix() -> Seq<char> {
    seq!['s', 't', 'a', 't', 'u', 's', '=', '=']
}

pub open spec fn status_prefix() -> Seq<char> {
    seq!['s', 't', 'a', 't', 'u', 's', '=']
}

pub open spec fn body_eq_prefix() -> Seq<char> {
    seq!['b', 'o', 'd', 'y', '=', '=']
}

/// Whether an assertion holds of a response: `status==N` and `status=N` compare
/// the status code's decimal numeral with `N`, `body==T` compares the whole
/// body with `T`, and `NAME~T` (such as `body~T` or `version~1.0`) asks that
/// the text `T` after the first `~` occur in the body; any other assertion
/// holds.
pub open spec fn assertion_holds(status: u16, body: Seq<char>, a: Seq<char>) -> bool {
    if has_prefix(a, status_eq_prefix()) {
        decimal(status as nat) == a.skip(8)
    } else if has_prefix(a, status_prefix()) {
        decimal(status as nat) == a.skip(7)
    } else if has_prefix(a, body_eq_prefix()) {
        body == a.skip(6)
    } else {
        match split_once(a, '~') {
            Some((_, t)) => contains_text(body, t),
            None => true,
        }
    }
}

/// Checks each assertion against the response; the result pairs each
/// assertion, in order, with whether it held.
pub fn run_assertions(status: u16, body: &str, assertions: &Vec<String>) -> (r: Vec<(String, bool)>)
    ensures
        r.len() == assertions.len(),
        forall|i: int|
            0 <= i < r.len() ==> (#[trigger] r[i]).0@ == assertions[i]@ && r[i].1
                == assertion_holds(status, body@, assertions[i]@),
        forall|i: int|
            0 <= i < r.len() && has_prefix(
                assertions[i]@,
                seq!['s', 't', 'a', 't', 'u', 's', '=', '='],
            ) ==> ((#[trigger] r[i]).1 <==> decimal(status as nat) == assertions[i]@.skip(8)),
        forall|i: int|
            0 <= i < r.len() && has_prefix(assertions[i]@, seq!['b', 'o', 'd', 'y', '=', '='])
                ==> ((#[trigger] r[i]).1 <==> body@ == assertions[i]@.skip(6)),
{
    let body_chars = chars_of(body);
    let code = decimal_string(status as u64);
    let code_chars = chars_of(code.as_str());
    let p_status_eq = vec!['s', 't', 'a', 't', 'u', 's', '=', '='];
    let p_status = vec!['s', 't', 'a', 't', 'u', 's', '='];
    let p_body_eq = vec!['b', 'o', 'd', 'y', '=', '='];
    assert(p_status_eq@ == status_eq_prefix());
    assert(p_status@ == status_prefix());
    assert(p_body_eq@ == body_eq_prefix());
    let mut r: Vec<(String, bool)> = Vec::new();
    let mut i: usize = 0;
    while i < assertions.len()
        invariant
            i <= assertions.len(),
            r.len() == i,
            body_chars@ == body@,
            code_chars@ == decimal(status as nat),
            p_status_eq@ == status_eq_prefix(),
            p_status@ == status_prefix(),
            p_body_eq@ == body_eq_prefix(),
            forall|k: int|
                0 <= k < i ==> (#[trigger] r[k]).0@ == assertions[k]@ && r[k].1
                    == assertion_holds(status, body@, assertions[k]@),
        decreases assertions.len() - i,
    {
        let a = chars_of(assertions[i].as_str());
        let passed = if starts_with(&a, &p_status_eq) {
            let expected = slice_chars(&a, 8, a.len());
            same_chars(&code_chars, &expected)
        } else if starts_with(&a, &p_status) {
            let expected = slice_chars(&a, 7, a.len());
            same_chars(&code_chars, &expected)
        } else if starts_with(&a, &p_body_eq) {
            let expected = slice_chars(&a, 6, a.len());
            same_chars(&body_chars, &expected)
        } else {
            match split_once_chars(&a, '~') {
                Some((_, pattern)) => contains(&body_chars, &pattern),
                None => true,
            }
        };
        r.push((assertions[i].clone(), passed));
        i += 1;
    }
    proof {
        assert forall|i: int|
            0 <= i < r.len() && has_prefix(
                assertions[i]@,
                seq!['s', 't', 'a', 't', 'u', 's', '=', '='],
            ) implies ((#[trigger] r[i]).1 <==> decimal(status as nat) == assertions[i]@.skip(8)) by {
            let a = assertions[i]@;
            assert(a =~= seq!['s', 't', 'a', 't', 'u', 's', '=', '='] + a.skip(8));
            law_assertion_forms(status, body@, a.skip(8));
        }
        assert forall|i: int|
            0 <= i < r.len() && has_prefix(assertions[i]@, seq!['b', 'o', 'd', 'y', '=', '='])
                implies ((#[trigger] r[i]).1 <==> body@ == assertions[i]@.skip(6)) by {
            let a = assertions[i]@;
            assert(a =~= seq!['b', 'o', 'd', 'y', '=', '='] + a.skip(6));
            law_assertion_forms(status, body@, a.skip(6));
        }
    }
    r
}

/// The forms of an assertion, for every status code, body and text `t`:
/// `status==t` holds exactly when the status code written in decimal is `t`;
/// so does `status=t` when `t` does not begin with `=`; `body==t` holds
/// exactly when the whole body is `t`.
pub proof fn law_assertion_forms(status: u16, body: Seq<char>, t: Seq<char>)
    ensures
        assertion_holds(status, body, seq!['s', 't', 'a', 't', 'u', 's', '=', '='] + t) == (
        decimal(status as nat) == t),
        (t.len() == 0 || t[0] != '=') ==> assertion_holds(
            status,
            body,
            seq!['s', 't', 'a', 't', 'u', 's', '='] + t,
        ) == (decimal(status as nat) == t),
        assertion_holds(status, body, seq!['b', 'o', 'd', 'y', '=', '='] + t) == (body == t),
{
    let se = seq!['s', 't', 'a', 't', 'u', 's', '=', '='];
    let s1 = seq!['s', 't', 'a', 't', 'u', 's', '='];
    let be = seq!['b', 'o', 'd', 'y', '=', '='];
    let a1 = se + t;
    assert(a1.take(8) =~= status_eq_prefix());
    assert(a1.skip(8) =~= t);
    let a2 = s1 + t;
    assert(a2.take(7) =~= status_prefix());
    assert(a2.skip(7) =~= t);
    if t.len() == 0 || t[0] != '=' {
        if has_prefix(a2, status_eq_prefix()) {
            assert(a2[7] == status_eq_prefix()[7]);
        }
    }
    let a3 = be + t;
    assert(a3.take(6) =~= body_eq_prefix());
    assert(a3.skip(6) =~= t);
    assert(!has_prefix(a3, status_eq_prefix())) by {
        if has_prefix(a3, status_eq_prefix()) {
            assert(a3[0] == status_eq_prefix()[0]);
        }
    }
    assert(!has_prefix(a3, status_prefix())) by {
        if has_prefix(a3, status_prefix()) {
            assert(a3[0] == status_prefix()[0]);
        }
    }
}

/// An assertion `NAME~t`, where `NAME` holds no `~` and begins neither with
/// `status=` nor with `body==`, holds exactly when `t` occurs in the body.
pub proof fn law_contains_assertion(status: u16, body: Seq<char>, name: Seq<char>, t: Seq<char>)
    requires
        !name.contains('~'),
        !has_prefix(name, seq!['s', 't', 'a', 't', 'u', 's', '=']),
        !has_prefix(name, seq!['b', 'o', 'd', 'y', '=', '=']),
    ensures
        assertion_holds(status, body, name + seq!['~'] + t) == contains_text(body, t),
{
    let a = name + seq!['~'] + t;
    let n = name.len() as int;
    assert(a[n] == '~');
    assert forall|k: int| 0 <= k < n implies a[k] != '~' by {
        assert(a[k] == name[k]);
        if a[k] == '~' {
            assert(name.contains('~'));
        }
    }
    lemma_split_once_at(a, '~', n);
    assert(a.skip(n + 1) =~= t);
    assert(a.take(n) =~= name);
    lemma_no_prefix_through(name, a, status_prefix());
    lemma_no_prefix_through(name, a, body_eq_prefix());
    lemma_status_eq_prefix(a);
}

/// An assertion that holds no `~` and begins neither with `status=` nor with
/// `body==` holds whatever the response.
pub proof fn law_other_assertion_holds(status: u16, body: Seq<char>, a: Seq<char>)
    requires
        !a.contains('~'),
        !has_prefix(a, seq!['s', 't', 'a', 't', 'u', 's', '=']),
        !has_prefix(a, seq!['b', 'o', 'd', 'y', '=', '=']),
    ensures
        assertion_holds(status, body, a),
{
    lemma_status_eq_prefix(a);
}

/// A text that begins with `status==` begins with `status=`.
proof fn lemma_status_eq_prefix(a: Seq<char>)
    ensures
        has_prefix(a, status_eq_prefix()) ==> has_prefix(a, status_prefix()),
{
    if has_prefix(a, status_eq_prefix()) {
        assert(a.take(7) =~= status_eq_prefix().take(7));
        assert(status_eq_prefix().take(7) =~= status_prefix());
    }
}

/// A text that starts with `name` followed by `~` begins with a prefix free of
/// `~` only when `name` does.
proof fn lemma_no_prefix_through(name: Seq<char>, a: Seq<char>, p: Seq<char>)
    requires
        !has_prefix(name, p),
        !p.contains('~'),
        name.len() < a.len(),
        a.take(name.len() as int) == name,
        a[name.len() as int] == '~',
    ensures
        !has_prefix(a, p),
{
    if has_prefix(a, p) {
        if p.len() <= name.len() {
            assert(name.take(p.len() as int) =~= a.take(p.len() as int));
        } else {
            assert(p[name.len() as int] == a.take(p.len() as int)[name.len() as int]);
            assert(p.contains('~'));
        }
    }
}

/// Whether every assertion held.
pub fn all_passed(results: &Vec<(String, bool)>) -> (b: bool)
    ensures
        b == forall|i: int| 0 <= i < results.len() ==> (#[trigger] results[i]).1,
{
    let mut i: usize = 0;
    while i < results.len()
        invariant
            i <= results.len(),
            forall|k: int| 0 <= k < i ==> (#[trigger] results[k]).1,
        decreases results.len() - i,
    {
        if !results[i].1 {
            return false;
        }
        i += 1;
    }
    true
}

} // verus!
