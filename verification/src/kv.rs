use vstd::prelude::*;

use crate::json::{
    json_keys, json_map_insert_text, json_map_new, json_object_members, json_text_fields,
    no_objects,
};
use crate::text::{
    chars_of, is_whitespace, is_ws, lemma_split_once_at, split_once, split_once_chars, string_of,
    trim, trim_chars,
};

verus! {

/// What `key=value` (or `key: value`) text means: split at the first `=`,
/// else at the first `:` with white space trimmed from both sides, else nothing.
pub open spec fn key_value(s: Seq<char>) -> Option<(Seq<char>, Seq<char>)> {
    match split_once(s, '=') {
        Some((k, v)) => Some((k, v)),
        None => match split_once(s, ':') {
            Some((k, v)) => Some((trim(k), trim(v))),
            None => None,
        },
    }
}

/// Splits `key=value` or `key: value` into its key and value.
pub fn parse_key_value(s: &str) -> (r: Option<(String, String)>)
    ensures
        match r {
            Some((k, v)) => key_value(s@) == Some((k@, v@)),
            None => key_value(s@) is None,
        },
{
    let cs = chars_of(s);
    match split_once_chars(&cs, '=') {
        Some((k, v)) => Some((string_of(k.as_slice()), string_of(v.as_slice()))),
        None => match split_once_chars(&cs, ':') {
            Some((k, v)) => {
                let k2 = trim_chars(&k);
                let v2 = trim_chars(&v);
                Some((string_of(k2.as_slice()), string_of(v2.as_slice())))
            },
            None => None,
        },
    }
}

/// The map that a list of pairs describes, a later pair replacing an earlier one.
pub open spec fn pairs_map(s: Seq<(Seq<char>, Seq<char>)>) -> Map<Seq<char>, Seq<char>>
    decreases s.len(),
{
    if s.len() == 0 {
        Map::empty()
    } else {
        pairs_map(s.drop_last()).insert(s.last().0, s.last().1)
    }
}

/// No key occurs twice.
pub open spec fn distinct_keys(s: Seq<(Seq<char>, Seq<char>)>) -> bool {
    forall|i: int, j: int| 0 <= i < j < s.len() ==> #[trigger] s[i].0 != #[trigger] s[j].0
}

/// The text of each pair.
pub open spec fn pairs_view(v: Seq<(String, String)>) -> Seq<(Seq<char>, Seq<char>)> {
    v.map_values(|p: (String, String)| (p.0@, p.1@))
}

proof fn lemma_pairs_map_dom(s: Seq<(Seq<char>, Seq<char>)>, k: Seq<char>)
    ensures
        pairs_map(s).dom().contains(k) <==> exists|i: int| 0 <= i < s.len() && s[i].0 == k,
    decreases s.len(),
{
    if s.len() > 0 {
        lemma_pairs_map_dom(s.drop_last(), k);
        if pairs_map(s.drop_last()).dom().contains(k) {
            let i = choose|i: int| 0 <= i < s.drop_last().len() && s.drop_last()[i].0 == k;
            assert(s[i].0 == k);
        }
        if exists|i: int| 0 <= i < s.len() && s[i].0 == k {
            let i = choose|i: int| 0 <= i < s.len() && s[i].0 == k;
            if i < s.len() - 1 {
                assert(s.drop_last()[i].0 == k);
            }
        }
    }
}

proof fn lemma_pairs_map_update(s: Seq<(Seq<char>, Seq<char>)>, i: int, v: Seq<char>)
    requires
        0 <= i < s.len(),
        distinct_keys(s),
    ensures
        pairs_map(s.update(i, (s[i].0, v))) == pairs_map(s).insert(s[i].0, v),
        distinct_keys(s.update(i, (s[i].0, v))),
    decreases s.len(),
{
    let k = s[i].0;
    let t = s.update(i, (k, v));
    assert(distinct_keys(t)) by {
        assert forall|a: int, b: int| 0 <= a < b < t.len() implies #[trigger] t[a].0
            != #[trigger] t[b].0 by {
            assert(t[a].0 == s[a].0);
            assert(t[b].0 == s[b].0);
        }
    }
    if i == s.len() - 1 {
        assert(t.drop_last() == s.drop_last());
    } else {
        let d = s.drop_last();
        assert(distinct_keys(d)) by {
            assert forall|a: int, b: int| 0 <= a < b < d.len() implies #[trigger] d[a].0
                != #[trigger] d[b].0 by {
                assert(d[a] == s[a]);
                assert(d[b] == s[b]);
            }
        }
        lemma_pairs_map_update(d, i, v);
        assert(t.drop_last() == d.update(i, (k, v)));
        assert(s.last().0 != k);
        assert(pairs_map(t) == pairs_map(d).insert(k, v).insert(s.last().0, s.last().1));
        assert(pairs_map(t) =~= pairs_map(s).insert(k, v));
    }
}

/// A map from text keys to text values that keeps its pairs in insertion order;
/// inserting a key that is present replaces its value in place.
pub struct FieldMap {
    entries: Vec<(String, String)>,
}

impl View for FieldMap {
    type V = Map<Seq<char>, Seq<char>>;

    closed spec fn view(&self) -> Map<Seq<char>, Seq<char>> {
        pairs_map(pairs_view(self.entries@))
    }
}

impl FieldMap {
    #[verifier::type_invariant]
    closed spec fn wf(self) -> bool {
        distinct_keys(pairs_view(self.entries@))
    }

    /// The empty map.
    pub fn new() -> (m: FieldMap)
        ensures
            m@ == Map::<Seq<char>, Seq<char>>::empty(),
    {
        let m = FieldMap { entries: Vec::new() };
        assert(pairs_view(m.entries@).len() == 0);
        m
    }

    /// Sets `key` to `value`.
    pub fn insert(&mut self, key: String, value: String)
        ensures
            final(self)@ == old(self)@.insert(key@, value@),
    {
        proof {
            use_type_invariant(&*self);
        }
        let ghost old_pairs = pairs_view(self.entries@);
        let mut i: usize = 0;
        while i < self.entries.len()
            invariant
                i <= self.entries.len(),
                self.entries@ == old(self).entries@,
                old_pairs == pairs_view(self.entries@),
                distinct_keys(old_pairs),
                forall|j: int| 0 <= j < i ==> old_pairs[j].0 != key@,
            decreases self.entries.len() - i,
        {
            if self.entries[i].0 == key {
                proof {
                    lemma_pairs_map_update(old_pairs, i as int, value@);
                }
                let mut entries: Vec<(String, String)> = Vec::new();
                std::mem::swap(&mut entries, &mut self.entries);
                entries.set(i, (key, value));
                assert(pairs_view(entries@) == old_pairs.update(i as int, (old_pairs[i as int].0, value@)));
                self.entries = entries;
                return ;
            }
            i += 1;
        }
        proof {
            lemma_pairs_map_dom(old_pairs, key@);
        }
        let mut entries: Vec<(String, String)> = Vec::new();
        std::mem::swap(&mut entries, &mut self.entries);
        entries.push((key, value));
        assert(pairs_view(entries@) == old_pairs.push((key@, value@)));
        assert(pairs_view(entries@).drop_last() == old_pairs);
        self.entries = entries;
    }

    /// The pairs in insertion order: no key twice, and together they make up the map.
    pub fn entries(&self) -> (r: &Vec<(String, String)>)
        ensures
            distinct_keys(pairs_view(r@)),
            pairs_map(pairs_view(r@)) == self@,
    {
        proof {
            use_type_invariant(self);
        }
        &self.entries
    }

    /// The number of keys.
    pub fn len(&self) -> (n: usize)
        ensures
            n == self@.len(),
    {
        proof {
            use_type_invariant(self);
            lemma_distinct_len(pairs_view(self.entries@));
        }
        self.entries.len()
    }
}

proof fn lemma_distinct_len(s: Seq<(Seq<char>, Seq<char>)>)
    requires
        distinct_keys(s),
    ensures
        pairs_map(s).dom().finite(),
        pairs_map(s).len() == s.len(),
    decreases s.len(),
{
    if s.len() > 0 {
        let d = s.drop_last();
        assert(distinct_keys(d)) by {
            assert forall|a: int, b: int| 0 <= a < b < d.len() implies #[trigger] d[a].0
                != #[trigger] d[b].0 by {
                assert(d[a] == s[a]);
                assert(d[b] == s[b]);
            }
        }
        lemma_distinct_len(d);
        lemma_pairs_map_dom(d, s.last().0);
        if pairs_map(d).dom().contains(s.last().0) {
            let i = choose|i: int| 0 <= i < d.len() && d[i].0 == s.last().0;
            assert(s[i].0 == s[s.len() - 1].0);
        }
    }
}


/// The fields that a list of `key=value` arguments gives, in the manner of
/// `parse_key_value`: arguments that are no pair are skipped, and a later
/// argument with the same key replaces an earlier one.
pub open spec fn fields_of(args: Seq<Seq<char>>) -> Map<Seq<char>, Seq<char>>
    decreases args.len(),
{
    if args.len() == 0 {
        Map::empty()
    } else {
        let m = fields_of(args.drop_last());
        match key_value(args.last()) {
            Some((k, v)) => m.insert(k, v),
            None => m,
        }
    }
}

/// The JSON object of text fields that `key=value` arguments give.
pub fn parse_body_args(args: &Vec<String>) -> (m: crate::json::JsonObject)
    ensures
        json_text_fields(m) == fields_of(args.deep_view()),
        json_keys(m) == fields_of(args.deep_view()).dom(),
        json_object_members(m) == no_objects(),
{
    let mut m = json_map_new();
    let mut i: usize = 0;
    while i < args.len()
        invariant
            i <= args.len(),
            json_text_fields(m) == fields_of(args.deep_view().take(i as int)),
            json_keys(m) == fields_of(args.deep_view().take(i as int)).dom(),
            json_object_members(m) == no_objects(),
        decreases args.len() - i,
    {
        assert(args.deep_view().take(i + 1).drop_last() == args.deep_view().take(i as int));
        assert(args.deep_view().take(i + 1).last() == args[i as int]@);
        match parse_key_value(args[i].as_str()) {
            Some((k, v)) => {
                json_map_insert_text(&mut m, k, v);
            },
            None => {},
        }
        i += 1;
    }
    assert(args.deep_view().take(args.len() as int) == args.deep_view());
    m
}

/// The form fields that `key=value` arguments give.
pub fn parse_form_args(args: &Vec<String>) -> (m: FieldMap)
    ensures
        m@ == fields_of(args.deep_view()),
{
    let mut m = FieldMap::new();
    let mut i: usize = 0;
    while i < args.len()
        invariant
            i <= args.len(),
            m@ == fields_of(args.deep_view().take(i as int)),
        decreases args.len() - i,
    {
        assert(args.deep_view().take(i + 1).drop_last() == args.deep_view().take(i as int));
        assert(args.deep_view().take(i + 1).last() == args[i as int]@);
        match parse_key_value(args[i].as_str()) {
            Some((k, v)) => {
                m.insert(k, v);
            },
            None => {},
        }
        i += 1;
    }
    assert(args.deep_view().take(args.len() as int) == args.deep_view());
    m
}

/// A later `key=value` argument sets its key whatever came before, and leaves
/// the other keys as they were; an argument that is no pair changes nothing.
pub proof fn law_later_field_wins(args: Seq<Seq<char>>, a: Seq<char>)
    ensures
        match key_value(a) {
            Some((k, v)) => fields_of(args.push(a)) == fields_of(args).insert(k, v),
            None => fields_of(args.push(a)) == fields_of(args),
        },
{
    assert(args.push(a).drop_last() == args);
}

/// `key=value` splits at its first `=`: for a key without `=`, the text
/// `key=value` is the pair of the key and everything after that `=`, more `=`
/// included. Text with no `=` splits at its first `:` with white space trimmed
/// from both sides, and text with neither is no pair.
pub proof fn law_key_value_forms(k: Seq<char>, v: Seq<char>)
    ensures
        !k.contains('=') ==> key_value(k + seq!['='] + v) == Some((k, v)),
        !k.contains('=') && !v.contains('=') && !k.contains(':') ==> key_value(
            k + seq![':'] + v,
        ) == Some((trim(k), trim(v))),
        !k.contains('=') && !k.contains(':') ==> key_value(k) is None,
{
    let n = k.len() as int;
    let a = k + seq!['='] + v;
    if !k.contains('=') {
        assert(a[n] == '=');
        assert forall|i: int| 0 <= i < n implies a[i] != '=' by {
            assert(a[i] == k[i]);
        }
        lemma_split_once_at(a, '=', n);
        assert(a.take(n) =~= k);
        assert(a.skip(n + 1) =~= v);
    }
    let b = k + seq![':'] + v;
    if !k.contains('=') && !v.contains('=') && !k.contains(':') {
        assert(!b.contains('=')) by {
            if b.contains('=') {
                let i = choose|i: int| 0 <= i < b.len() && b[i] == '=';
                if i < n {
                    assert(k[i] == b[i]);
                } else if i > n {
                    assert(v[i - n - 1] == b[i]);
                }
            }
        }
        assert(b[n] == ':');
        assert forall|i: int| 0 <= i < n implies b[i] != ':' by {
            assert(b[i] == k[i]);
        }
        lemma_split_once_at(b, ':', n);
        assert(b.take(n) =~= k);
        assert(b.skip(n + 1) =~= v);
    }
}

/// Length of the run of non-white-space characters that `s` starts with.
pub open spec fn leading_word_len(s: Seq<char>) -> nat
    decreases s.len(),
{
    if s.len() > 0 && !is_ws(s[0]) {
        1 + leading_word_len(s.drop_first())
    } else {
        0
    }
}

/// The white-space separated words of `s`, as `str::split_whitespace` gives them.
pub open spec fn words(s: Seq<char>) -> Seq<Seq<char>>
    decreases s.len(),
{
    if s.len() == 0 {
        seq![]
    } else if is_ws(s[0]) {
        words(s.drop_first())
    } else {
        let n = leading_word_len(s);
        proof {
            lemma_leading_word_len_bound(s);
        }
        seq![s.take(n as int)] + words(s.skip(n as int))
    }
}

pub proof fn lemma_leading_word_len_bound(s: Seq<char>)
    ensures
        leading_word_len(s) <= s.len(),
        s.len() > 0 && !is_ws(s[0]) ==> leading_word_len(s) >= 1,
    decreases s.len(),
{
    if s.len() > 0 && !is_ws(s[0]) {
        lemma_leading_word_len_bound(s.drop_first());
    }
}

proof fn lemma_leading_word_len(s: Seq<char>, m: int)
    requires
        0 <= m <= s.len(),
        forall|j: int| 0 <= j < m ==> !is_ws(#[trigger] s[j]),
        m == s.len() || is_ws(s[m]),
    ensures
        leading_word_len(s) == m,
    decreases m,
{
    if m > 0 {
        let t = s.drop_first();
        assert forall|j: int| 0 <= j < m - 1 implies !is_ws(#[trigger] t[j]) by {
            assert(t[j] == s[j + 1]);
        }
        if m - 1 < t.len() {
            assert(t[m - 1] == s[m]);
        }
        lemma_leading_word_len(t, m - 1);
    }
}

/// The white-space separated words of `s`.
pub fn split_whitespace(s: &str) -> (r: Vec<String>)
    ensures
        r.deep_view() == words(s@),
{
    let cs = chars_of(s);
    let n = cs.len();
    let mut out: Vec<String> = Vec::new();
    let mut i: usize = 0;
    assert(cs@.skip(0) == cs@);
    while i < n
        invariant
            i <= n == cs.len(),
            cs@ == s@,
            words(s@) == out.deep_view() + words(cs@.skip(i as int)),
        decreases n - i,
    {
        let t = Ghost(cs@.skip(i as int));
        if is_whitespace(cs[i]) {
            assert(t@.drop_first() == cs@.skip(i + 1));
            i += 1;
        } else {
            let mut j: usize = i;
            while j < n && !is_whitespace(cs[j])
                invariant
                    i <= j <= n == cs.len(),
                    forall|k: int| i <= k < j ==> !is_ws(#[trigger] cs@[k]),
                decreases n - j,
            {
                j += 1;
            }
            proof {
                let m = (j - i) as int;
                assert forall|k: int| 0 <= k < m implies !is_ws(#[trigger] t@[k]) by {
                    assert(t@[k] == cs@[i + k]);
                }
                if m < t@.len() {
                    assert(t@[m] == cs@[j as int]);
                }
                lemma_leading_word_len(t@, m);
                assert(t@.take(m) == cs@.subrange(i as int, j as int));
                assert(t@.skip(m) == cs@.skip(j as int));
            }
            let w = crate::text::slice_chars(&cs, i, j);
            let ws = string_of(w.as_slice());
            let ghost before = out.deep_view();
            out.push(ws);
            assert(out.deep_view() == before.push(ws@));
            assert(before.push(ws@) + words(cs@.skip(j as int)) == before + (seq![ws@] + words(
                cs@.skip(j as int),
            )));
            i = j;
        }
    }
    assert(cs@.skip(n as int) == Seq::<char>::empty());
    assert(out.deep_view() + Seq::<Seq<char>>::empty() == out.deep_view());
    out
}

/// The parts, with `sep` between each two of them.
pub open spec fn join(parts: Seq<Seq<char>>, sep: Seq<char>) -> Seq<char>
    decreases parts.len(),
{
    if parts.len() == 0 {
        seq![]
    } else if parts.len() == 1 {
        parts[0]
    } else {
        join(parts.drop_last(), sep) + sep + parts.last()
    }
}

/// The strings joined with `sep` between each two of them.
pub fn join_strings(parts: &Vec<String>, sep: &str) -> (r: String)
    ensures
        r@ == join(parts.deep_view(), sep@),
{
    let mut r = String::new();
    let mut i: usize = 0;
    while i < parts.len()
        invariant
            i <= parts.len(),
            r@ == join(parts.deep_view().take(i as int), sep@),
        decreases parts.len() - i,
    {
        let ghost pre = parts.deep_view().take(i as int);
        assert(parts.deep_view().take(i + 1).drop_last() == pre);
        if i > 0 {
            r.append(sep);
        } else {
            assert(r@ == Seq::<char>::empty());
        }
        r.append(parts[i].as_str());
        i += 1;
    }
    assert(parts.deep_view().take(parts.len() as int) == parts.deep_view());
    r
}

} // verus!
