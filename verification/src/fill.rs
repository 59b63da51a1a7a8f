//! Filling the placeholders of a text: a placeholder is a name in double braces.
use vstd::prelude::*;

use crate::text::{contains_text, replaced};

verus! {

/// Whether a placeholder opens at position `i`: two braces in a row.
pub open spec fn opens(s: Seq<char>, i: int) -> bool {
    0 <= i < s.len() - 1 && s[i] == '{' && s[i + 1] == '{'
}

/// Whether every pair of braces in `s` opens one of the placeholders.
pub open spec fn opens_only(s: Seq<char>, tokens: Seq<Seq<char>>) -> bool {
    forall|i: int|
        #[trigger] opens(s, i) ==> exists|k: int|
            0 <= k < tokens.len() && #[trigger] tokens[k].is_prefix_of(s.skip(i))
}

/// A placeholder is a name in double braces.
pub open spec fn is_placeholder(t: Seq<char>) -> bool {
    &&& t.len() >= 5
    &&& t[0] == '{'
    &&& t[1] == '{'
    &&& forall|j: int| 2 <= j < t.len() ==> #[trigger] t[j] != '{'
    &&& forall|j: int| 0 <= j < t.len() ==> #[trigger] t[j] != '#'
}

/// Whether no text can start with both `t` and `u`.
pub open spec fn differ(t: Seq<char>, u: Seq<char>) -> bool {
    exists|j: int| 0 <= j < t.len() && j < u.len() && #[trigger] t[j] != u[j]
}

/// What a placeholder can be filled with: some text without braces.
pub open spec fn is_value(v: Seq<char>) -> bool {
    &&& v.len() > 0
    &&& forall|j: int| 0 <= j < v.len() ==> #[trigger] v[j] != '{'
}

/// A definition: some text without braces that starts with a hash.
pub open spec fn is_definition(d: Seq<char>) -> bool {
    is_value(d) && d[0] == '#'
}

/// `s` with each of the placeholders filled with its value, one after the other.
pub open spec fn filled(s: Seq<char>, tokens: Seq<Seq<char>>, values: Seq<Seq<char>>) -> Seq<char>
    decreases tokens.len(),
{
    if tokens.len() == 0 {
        s
    } else {
        filled(replaced(s, tokens[0], values[0]), tokens.skip(1), values.skip(1))
    }
}

/// As far as no occurrence of `t` starts, a text is kept as it is.
proof fn lemma_start_kept(s: Seq<char>, t: Seq<char>, v: Seq<char>, k: int)
    requires
        t.len() > 0,
        0 <= k <= s.len(),
        forall|i: int| 0 <= i < k ==> !(#[trigger] t.is_prefix_of(s.skip(i))),
    ensures
        s.take(k).is_prefix_of(replaced(s, t, v)),
    decreases k,
{
    let r = replaced(s, t, v);
    if k > 0 {
        assert(s.skip(0) == s);
        let rest = s.skip(1);
        assert forall|i: int| 0 <= i < k - 1 implies !(#[trigger] t.is_prefix_of(
            rest.skip(i),
        )) by {
            assert(rest.skip(i) == s.skip(i + 1));
        }
        lemma_start_kept(rest, t, v, k - 1);
        let p = rest.take(k - 1);
        assert(r == seq![s[0]] + replaced(rest, t, v));
        assert(s.take(k) == seq![s[0]] + p);
        assert(p == replaced(rest, t, v).subrange(0, k - 1));
        assert(s.take(k) =~= r.subrange(0, k));
    } else {
        assert(s.take(0) =~= r.subrange(0, 0));
    }
}

/// Filling one placeholder leaves only the others open.
proof fn lemma_one_filled(s: Seq<char>, t: Seq<char>, v: Seq<char>, others: Seq<Seq<char>>)
    requires
        is_placeholder(t),
        is_value(v),
        forall|k: int| 0 <= k < others.len() ==> is_placeholder(#[trigger] others[k]),
        opens_only(s, seq![t] + others),
    ensures
        opens_only(replaced(s, t, v), others),
    decreases s.len(),
{
    let r = replaced(s, t, v);
    let all = seq![t] + others;
    if s.len() > 0 {
        let m: int = if t.is_prefix_of(s) {
            t.len() as int
        } else {
            1
        };
        let rest = s.skip(m);
        assert forall|i: int| #[trigger] opens(rest, i) implies exists|k: int|
            0 <= k < all.len() && #[trigger] all[k].is_prefix_of(rest.skip(i)) by {
            assert(opens(s, i + m));
            assert(rest.skip(i) == s.skip(i + m));
        }
        lemma_one_filled(rest, t, v, others);
        let rr = replaced(rest, t, v);
        let head: Seq<char> = if t.is_prefix_of(s) {
            v
        } else {
            seq![s[0]]
        };
        assert(r == head + rr);
        assert forall|i: int| #[trigger] opens(r, i) implies exists|k: int|
            0 <= k < others.len() && #[trigger] others[k].is_prefix_of(r.skip(i)) by {
            if i >= head.len() {
                assert(opens(rr, i - head.len()));
                assert(rr.skip(i - head.len()) == r.skip(i));
            } else {
                assert(head[i] == '{');
                lemma_open_kept(s, t, v, others);
            }
        }
    }
}

/// The case of a text that starts with a placeholder other than the filled one.
proof fn lemma_open_kept(s: Seq<char>, t: Seq<char>, v: Seq<char>, others: Seq<Seq<char>>)
    requires
        s.len() > 0,
        !t.is_prefix_of(s),
        is_placeholder(t),
        is_value(v),
        forall|k: int| 0 <= k < others.len() ==> is_placeholder(#[trigger] others[k]),
        opens_only(s, seq![t] + others),
        opens(replaced(s, t, v), 0),
    ensures
        exists|k: int|
            0 <= k < others.len() && #[trigger] others[k].is_prefix_of(
                replaced(s, t, v).skip(0),
            ),
{
    let r = replaced(s, t, v);
    let rest = s.skip(1);
    let all = seq![t] + others;
    assert(r == seq![s[0]] + replaced(rest, t, v));
    assert(r[1] == replaced(rest, t, v)[0]);
    assert(rest.len() > 0);
    assert(!t.is_prefix_of(rest));
    assert(opens(s, 0));
    assert(s.skip(0) == s);
    let k = choose|k: int| 0 <= k < all.len() && #[trigger] all[k].is_prefix_of(s.skip(0));
    assert(k > 0);
    let u = others[k - 1];
    assert(all[k] == u);
    assert(u == s.subrange(0, u.len() as int));
    assert forall|i: int| 0 <= i < u.len() implies !(#[trigger] t.is_prefix_of(s.skip(i))) by {
        if t.is_prefix_of(s.skip(i)) {
            lemma_prefix_chars(s, t, i);
            assert(s[i] == u[i]);
            if i == 1 {
                assert(s[2] == u[2]);
            }
        }
    }
    lemma_start_kept(s, t, v, u.len() as int);
    assert(s.take(u.len() as int) == u);
    assert(r.skip(0) == r);
}

/// The first two characters of a placeholder that stands at `i`.
proof fn lemma_prefix_chars(s: Seq<char>, t: Seq<char>, i: int)
    requires
        t.len() >= 2,
        0 <= i <= s.len(),
        t.is_prefix_of(s.skip(i)),
    ensures
        i + t.len() <= s.len(),
        forall|j: int| 0 <= j < t.len() ==> #[trigger] t[j] == s[i + j],
        s[i] == t[0],
        s[i + 1] == t[1],
{
    assert(t == s.skip(i).subrange(0, t.len() as int));
    assert forall|j: int| 0 <= j < t.len() implies #[trigger] t[j] == s[i + j] by {
        assert(s.skip(i).subrange(0, t.len() as int)[j] == s[i + j]);
    }
    assert(t[0] == s[i + 0]);
    assert(t[1] == s[i + 1]);
}

/// Once every placeholder that a text opens is filled, none is open.
pub proof fn law_filled_text_has_no_placeholder(
    s: Seq<char>,
    tokens: Seq<Seq<char>>,
    values: Seq<Seq<char>>,
)
    requires
        tokens.len() == values.len(),
        forall|k: int| 0 <= k < tokens.len() ==> is_placeholder(#[trigger] tokens[k]),
        forall|k: int| 0 <= k < values.len() ==> is_value(#[trigger] values[k]),
        opens_only(s, tokens),
    ensures
        forall|i: int| !(#[trigger] opens(filled(s, tokens, values), i)),
        forall|t: Seq<char>|
            is_placeholder(t) ==> !(#[trigger] contains_text(filled(s, tokens, values), t)),
    decreases tokens.len(),
{
    let r = filled(s, tokens, values);
    if tokens.len() > 0 {
        let others = tokens.skip(1);
        let rest = values.skip(1);
        assert(seq![tokens[0]] + others == tokens);
        assert forall|k: int| 0 <= k < others.len() implies is_placeholder(
            #[trigger] others[k],
        ) by {
            assert(others[k] == tokens[k + 1]);
        }
        assert forall|k: int| 0 <= k < rest.len() implies is_value(#[trigger] rest[k]) by {
            assert(rest[k] == values[k + 1]);
        }
        lemma_one_filled(s, tokens[0], values[0], others);
        law_filled_text_has_no_placeholder(
            replaced(s, tokens[0], values[0]),
            others,
            rest,
        );
        assert(r == filled(replaced(s, tokens[0], values[0]), others, rest));
    } else {
        assert(r == s);
    }
    assert forall|t: Seq<char>| is_placeholder(t) implies !(#[trigger] contains_text(r, t)) by {
        if contains_text(r, t) {
            let i = choose|i: int| 0 <= i <= r.len() && t.is_prefix_of(#[trigger] r.skip(i));
            lemma_prefix_chars(r, t, i);
            assert(opens(r, i));
        }
    }
}

/// A part in which no occurrence of `t` starts, and whose first character is not
/// one of `t`, stands in a text also after `t` is filled.
proof fn lemma_part_kept(s: Seq<char>, t: Seq<char>, v: Seq<char>, part: Seq<char>, at: int)
    requires
        t.len() >= 2,
        part.len() > 0,
        0 <= at <= s.len(),
        part.is_prefix_of(s.skip(at)),
        forall|j: int| 0 <= j < t.len() ==> #[trigger] t[j] != part[0],
        forall|j: int|
            at <= j < at + part.len() ==> !(#[trigger] t.is_prefix_of(s.skip(j))),
    ensures
        contains_text(replaced(s, t, v), part),
    decreases s.len(),
{
    let r = replaced(s, t, v);
    let n = part.len() as int;
    assert(s.skip(0) == s);
    assert(part == s.skip(at).subrange(0, n));
    assert(s[at] == part[0]);
    if at == 0 {
        lemma_start_kept(s, t, v, n);
        assert(s.take(n) == part);
        assert(r.skip(0) == r);
    } else {
        let m: int = if t.is_prefix_of(s) {
            t.len() as int
        } else {
            1
        };
        if t.is_prefix_of(s) {
            lemma_prefix_chars(s, t, 0);
            if m > at {
                assert(t[at] == s[0 + at]);
            }
        }
        let rest = s.skip(m);
        assert(rest.skip(at - m) == s.skip(at));
        assert forall|j: int| at - m <= j < at - m + n implies !(#[trigger] t.is_prefix_of(
            rest.skip(j),
        )) by {
            assert(rest.skip(j) == s.skip(j + m));
        }
        lemma_part_kept(rest, t, v, part, at - m);
        let head: Seq<char> = if t.is_prefix_of(s) {
            v
        } else {
            seq![s[0]]
        };
        lemma_contained_after(head, replaced(rest, t, v), part);
    }
}

/// What stands in a text stands also behind another one.
pub proof fn lemma_contained_after(head: Seq<char>, s: Seq<char>, part: Seq<char>)
    requires
        contains_text(s, part),
    ensures
        contains_text(head + s, part),
{
    let i = choose|i: int| 0 <= i <= s.len() && part.is_prefix_of(#[trigger] s.skip(i));
    assert((head + s).skip(head.len() + i) == s.skip(i));
}

/// What stands in a text stands also in a longer one.
pub proof fn lemma_contained_before(s: Seq<char>, tail: Seq<char>, part: Seq<char>)
    requires
        contains_text(s, part),
    ensures
        contains_text(s + tail, part),
{
    let i = choose|i: int| 0 <= i <= s.len() && part.is_prefix_of(#[trigger] s.skip(i));
    let n = part.len() as int;
    assert(part == s.skip(i).subrange(0, n));
    assert((s + tail).skip(i).subrange(0, n) =~= part);
    assert(part.is_prefix_of((s + tail).skip(i)));
}

/// A definition is followed by the value once its placeholder is filled, and what ends the
/// line stays behind it.
proof fn lemma_definition_filled(
    s: Seq<char>,
    t: Seq<char>,
    v: Seq<char>,
    d: Seq<char>,
    end: Seq<char>,
    at: int,
)
    requires
        is_placeholder(t),
        is_definition(d),
        forall|j: int| 0 <= j < end.len() ==> #[trigger] end[j] != '{',
        0 <= at <= s.len(),
        (d + t + end).is_prefix_of(s.skip(at)),
    ensures
        contains_text(replaced(s, t, v), d + v + end),
    decreases s.len(),
{
    let r = replaced(s, t, v);
    lemma_prefix_chars(s, d + t + end, at);
    assert(s[at] == d[0]) by {
        assert((d + t + end)[0] == s[at + 0]);
    }
    if at == 0 {
        assert(s.skip(0) == s);
        lemma_definition_at_start(s, t, v, d, end);
        assert(r.skip(0) == r);
    } else {
        let m: int = if t.is_prefix_of(s) {
            t.len() as int
        } else {
            1
        };
        if t.is_prefix_of(s) {
            assert(s.skip(0) == s);
            lemma_prefix_chars(s, t, 0);
            if m > at {
                assert(t[at] == s[0 + at]);
            }
        }
        let rest = s.skip(m);
        assert(rest.skip(at - m) == s.skip(at));
        lemma_definition_filled(rest, t, v, d, end, at - m);
        let head: Seq<char> = if t.is_prefix_of(s) {
            v
        } else {
            seq![s[0]]
        };
        lemma_contained_after(head, replaced(rest, t, v), d + v + end);
    }
}

proof fn lemma_definition_at_start(
    s: Seq<char>,
    t: Seq<char>,
    v: Seq<char>,
    d: Seq<char>,
    end: Seq<char>,
)
    requires
        is_placeholder(t),
        forall|j: int| 0 <= j < d.len() ==> #[trigger] d[j] != '{',
        forall|j: int| 0 <= j < end.len() ==> #[trigger] end[j] != '{',
        (d + t + end).is_prefix_of(s),
    ensures
        (d + v + end).is_prefix_of(replaced(s, t, v)),
    decreases d.len(),
{
    let r = replaced(s, t, v);
    assert(s.skip(0) == s);
    lemma_prefix_chars(s, d + t + end, 0);
    assert(d + t + end == s.subrange(0, (d + t + end).len() as int));
    if d.len() == 0 {
        let rest = s.skip(t.len() as int);
        let n = end.len() as int;
        assert(t =~= s.subrange(0, t.len() as int)) by {
            assert forall|j: int| 0 <= j < t.len() implies t[j] == s[j] by {
                assert((d + t + end)[j] == s[0 + j]);
            }
        }
        assert forall|j: int| 0 <= j < n implies #[trigger] end[j] == rest[j] by {
            assert((d + t + end)[t.len() + j] == s[0 + (t.len() + j)]);
        }
        assert(r == v + replaced(rest, t, v));
        assert forall|i: int| 0 <= i < n implies !(#[trigger] t.is_prefix_of(rest.skip(i))) by {
            if t.is_prefix_of(rest.skip(i)) {
                lemma_prefix_chars(rest, t, i);
                assert(end[i] == rest[i]);
            }
        }
        lemma_start_kept(rest, t, v, n);
        assert(rest.take(n) =~= end);
        assert(end == replaced(rest, t, v).subrange(0, n));
        assert(d + v + end =~= r.subrange(0, (d + v + end).len() as int));
    } else {
        let rest = s.skip(1);
        let e = d.skip(1);
        assert(s[0] == d[0]) by {
            assert((d + t + end)[0] == s[0]);
        }
        if t.is_prefix_of(s) {
            lemma_prefix_chars(s, t, 0);
        }
        assert(e + t + end == (d + t + end).skip(1));
        assert(e + t + end =~= rest.subrange(0, (e + t + end).len() as int));
        lemma_definition_at_start(rest, t, v, e, end);
        let p = e + v + end;
        assert(d + v + end == seq![s[0]] + p);
        assert(p == replaced(rest, t, v).subrange(0, p.len() as int));
        assert(d + v + end =~= r.subrange(0, (d + v + end).len() as int));
    }
}

/// Filling placeholders keeps a definition that is already followed by a value.
proof fn lemma_value_kept(
    s: Seq<char>,
    tokens: Seq<Seq<char>>,
    values: Seq<Seq<char>>,
    part: Seq<char>,
)
    requires
        tokens.len() == values.len(),
        forall|k: int| 0 <= k < tokens.len() ==> is_placeholder(#[trigger] tokens[k]),
        is_definition(part),
        contains_text(s, part),
    ensures
        contains_text(filled(s, tokens, values), part),
    decreases tokens.len(),
{
    if tokens.len() > 0 {
        let t = tokens[0];
        let at = choose|i: int| 0 <= i <= s.len() && part.is_prefix_of(#[trigger] s.skip(i));
        assert(part == s.skip(at).subrange(0, part.len() as int));
        assert forall|j: int| at <= j < at + part.len() implies !(#[trigger] t.is_prefix_of(
            s.skip(j),
        )) by {
            if t.is_prefix_of(s.skip(j)) {
                lemma_prefix_chars(s, t, j);
                assert(s[j] == part[j - at]);
            }
        }
        lemma_part_kept(s, t, values[0], part, at);
        let others = tokens.skip(1);
        assert forall|k: int| 0 <= k < others.len() implies is_placeholder(
            #[trigger] others[k],
        ) by {
            assert(others[k] == tokens[k + 1]);
        }
        lemma_value_kept(replaced(s, t, values[0]), others, values.skip(1), part);
    }
}

/// Where a text has a definition followed by a placeholder and something that ends it, the
/// filled text has the definition followed by the value and the same end.
pub proof fn law_lines_are_filled(
    s: Seq<char>,
    tokens: Seq<Seq<char>>,
    values: Seq<Seq<char>>,
    d: Seq<char>,
    end: Seq<char>,
    k: int,
)
    requires
        tokens.len() == values.len(),
        0 <= k < tokens.len(),
        forall|i: int| 0 <= i < tokens.len() ==> is_placeholder(#[trigger] tokens[i]),
        forall|i: int| 0 <= i < values.len() ==> is_value(#[trigger] values[i]),
        forall|i: int, j: int|
            0 <= i < tokens.len() && 0 <= j < tokens.len() && i != j ==> differ(
                #[trigger] tokens[i],
                #[trigger] tokens[j],
            ),
        is_definition(d),
        forall|j: int| 0 <= j < end.len() ==> #[trigger] end[j] != '{',
        contains_text(s, d + tokens[k] + end),
    ensures
        contains_text(filled(s, tokens, values), d + values[k] + end),
    decreases tokens.len(),
{
    let t = tokens[0];
    let v = values[0];
    let others = tokens.skip(1);
    let rest = values.skip(1);
    assert forall|i: int| 0 <= i < others.len() implies is_placeholder(#[trigger] others[i]) by {
        assert(others[i] == tokens[i + 1]);
    }
    let part = d + tokens[k] + end;
    let at = choose|i: int| 0 <= i <= s.len() && part.is_prefix_of(#[trigger] s.skip(i));
    if k == 0 {
        lemma_definition_filled(s, t, v, d, end, at);
        let done = d + v + end;
        assert forall|j: int| 0 <= j < done.len() implies #[trigger] done[j] != '{' by {
            if j < d.len() {
                assert(done[j] == d[j]);
            } else if j < d.len() + v.len() {
                assert(done[j] == v[j - d.len()]);
            } else {
                assert(done[j] == end[j - d.len() - v.len()]);
            }
        }
        lemma_value_kept(replaced(s, t, v), others, rest, done);
    } else {
        let u = tokens[k];
        lemma_prefix_chars(s, part, at);
        assert forall|j: int| at <= j < at + part.len() implies !(#[trigger] t.is_prefix_of(
            s.skip(j),
        )) by {
            if t.is_prefix_of(s.skip(j)) {
                lemma_prefix_chars(s, t, j);
                lemma_prefix_chars(s, part, at);
                let p = j - at;
                assert(part[p] == s[at + p]);
                let q = p - d.len();
                if q < 0 {
                    assert(part[p] == d[p]);
                } else if q >= u.len() {
                    assert(part[p] == end[q - u.len()]);
                } else {
                    assert(part[p] == u[q]);
                    if q == 0 {
                        assert(differ(t, u));
                        let w = choose|w: int|
                            0 <= w < t.len() && w < u.len() && #[trigger] t[w] != u[w];
                        assert(part[p + w] == u[w]);
                        assert(part[p + w] == s[at + (p + w)]);
                        assert(t[w] == s[j + w]);
                    } else if q == 1 {
                        assert(part[p + 1] == u[2]);
                        assert(part[p + 1] == s[at + (p + 1)]);
                    }
                }
            }
        }
        assert(part[0] == d[0]);
        lemma_part_kept(s, t, v, part, at);
        assert(others[k - 1] == u);
        assert(rest[k - 1] == values[k]);
        assert forall|i: int| 0 <= i < rest.len() implies is_value(#[trigger] rest[i]) by {
            assert(rest[i] == values[i + 1]);
        }
        assert forall|i: int, j: int|
            0 <= i < others.len() && 0 <= j < others.len() && i != j implies differ(
            #[trigger] others[i],
            #[trigger] others[j],
        ) by {
            assert(others[i] == tokens[i + 1]);
            assert(others[j] == tokens[j + 1]);
        }
        law_lines_are_filled(replaced(s, t, v), others, rest, d, end, k - 1);
    }
}

/// Where a text has a definition followed by a placeholder, the filled text has
/// the definition followed by the value.
pub proof fn law_definitions_are_filled(
    s: Seq<char>,
    tokens: Seq<Seq<char>>,
    values: Seq<Seq<char>>,
    d: Seq<char>,
    k: int,
)
    requires
        tokens.len() == values.len(),
        0 <= k < tokens.len(),
        forall|i: int| 0 <= i < tokens.len() ==> is_placeholder(#[trigger] tokens[i]),
        forall|i: int| 0 <= i < values.len() ==> is_value(#[trigger] values[i]),
        forall|i: int, j: int|
            0 <= i < tokens.len() && 0 <= j < tokens.len() && i != j ==> differ(
                #[trigger] tokens[i],
                #[trigger] tokens[j],
            ),
        is_definition(d),
        contains_text(s, d + tokens[k]),
    ensures
        contains_text(filled(s, tokens, values), d + values[k]),
{
    let none = Seq::<char>::empty();
    assert(d + tokens[k] + none =~= d + tokens[k]);
    assert(d + values[k] + none =~= d + values[k]);
    law_lines_are_filled(s, tokens, values, d, none, k);
}

/// Whether no placeholder opens in `s`, nor across the ends of `s`.
pub open spec fn plain(s: Seq<char>) -> bool {
    &&& s.len() > 0
    &&& s[0] != '{'
    &&& s.last() != '{'
    &&& forall|i: int| !(#[trigger] opens(s, i))
}

/// A text in which nothing opens has nothing to fill.
proof fn lemma_nothing_to_fill(s: Seq<char>, t: Seq<char>, v: Seq<char>)
    requires
        is_placeholder(t),
        forall|i: int| !(#[trigger] opens(s, i)),
    ensures
        replaced(s, t, v) == s,
    decreases s.len(),
{
    if s.len() > 0 {
        if t.is_prefix_of(s) {
            assert(s.skip(0) == s);
            lemma_prefix_chars(s, t, 0);
            assert(opens(s, 0));
        }
        let rest = s.skip(1);
        assert forall|i: int| !(#[trigger] opens(rest, i)) by {
            if opens(rest, i) {
                assert(opens(s, i + 1));
            }
        }
        lemma_nothing_to_fill(rest, t, v);
        assert(replaced(s, t, v) =~= s);
    }
}

/// A text that does not end in a brace does not do so after a filling.
proof fn lemma_end_filled(s: Seq<char>, t: Seq<char>, v: Seq<char>)
    requires
        t.len() > 0,
        is_value(v),
        s.len() > 0,
        s.last() != '{',
    ensures
        replaced(s, t, v).len() > 0,
        replaced(s, t, v).last() != '{',
    decreases s.len(),
{
    let m: int = if t.is_prefix_of(s) {
        t.len() as int
    } else {
        1
    };
    let head: Seq<char> = if t.is_prefix_of(s) {
        v
    } else {
        seq![s[0]]
    };
    let rest = s.skip(m);
    assert(v[v.len() - 1] != '{');
    assert(replaced(s, t, v) == head + replaced(rest, t, v));
    if rest.len() > 0 {
        lemma_end_filled(rest, t, v);
    } else {
        assert(replaced(s, t, v) =~= head);
    }
}

/// Filling a placeholder leaves a plain text behind the last one as it is.
proof fn lemma_plain_end_kept(
    s: Seq<char>,
    end: Seq<char>,
    t: Seq<char>,
    v: Seq<char>,
    all: Seq<Seq<char>>,
)
    requires
        is_placeholder(t),
        forall|k: int| 0 <= k < all.len() ==> #[trigger] all[k] == t || differ(all[k], t),
        opens_only(s, all),
        s.len() > 0 ==> s.last() != '{',
        plain(end),
    ensures
        replaced(s + end, t, v) == replaced(s, t, v) + end,
    decreases s.len(),
{
    let whole = s + end;
    if s.len() == 0 {
        assert(whole =~= end);
        lemma_nothing_to_fill(end, t, v);
        assert(replaced(s, t, v) + end =~= end);
    } else {
        assert(s.skip(0) == s && whole.skip(0) == whole);
        if t.is_prefix_of(whole) {
            lemma_prefix_chars(whole, t, 0);
            assert(opens(s, 0));
            let k = choose|k: int|
                0 <= k < all.len() && #[trigger] all[k].is_prefix_of(s.skip(0));
            let u = all[k];
            assert(u == s.subrange(0, u.len() as int));
            if u != t {
                let j = choose|j: int|
                    0 <= j < u.len() && j < t.len() && #[trigger] u[j] != t[j];
                assert(t == whole.subrange(0, t.len() as int));
                assert(u[j] == whole[j] && t[j] == whole[j]);
            }
        } else if t.is_prefix_of(s) {
            assert(t == s.subrange(0, t.len() as int));
            assert(t =~= whole.subrange(0, t.len() as int));
        }
        let m: int = if t.is_prefix_of(s) {
            t.len() as int
        } else {
            1
        };
        let rest = s.skip(m);
        assert(whole.skip(m) =~= rest + end);
        assert forall|i: int| #[trigger] opens(rest, i) implies exists|k: int|
            0 <= k < all.len() && #[trigger] all[k].is_prefix_of(rest.skip(i)) by {
            assert(opens(s, i + m));
            assert(rest.skip(i) == s.skip(i + m));
        }
        lemma_plain_end_kept(rest, end, t, v, all);
        assert(replaced(whole, t, v) =~= replaced(s, t, v) + end);
    }
}

/// Filling the placeholders of a text leaves a plain text behind it as it is.
pub proof fn law_plain_end_is_kept(
    s: Seq<char>,
    end: Seq<char>,
    tokens: Seq<Seq<char>>,
    values: Seq<Seq<char>>,
)
    requires
        tokens.len() == values.len(),
        forall|k: int| 0 <= k < tokens.len() ==> is_placeholder(#[trigger] tokens[k]),
        forall|k: int| 0 <= k < values.len() ==> is_value(#[trigger] values[k]),
        forall|i: int, j: int|
            0 <= i < tokens.len() && 0 <= j < tokens.len() && i != j ==> differ(
                #[trigger] tokens[i],
                #[trigger] tokens[j],
            ),
        opens_only(s, tokens),
        s.len() > 0,
        s.last() != '{',
        plain(end),
    ensures
        filled(s + end, tokens, values) == filled(s, tokens, values) + end,
    decreases tokens.len(),
{
    if tokens.len() > 0 {
        let (t, v) = (tokens[0], values[0]);
        let others = tokens.skip(1);
        let rest = values.skip(1);
        assert(seq![t] + others == tokens);
        assert forall|k: int| 0 <= k < others.len() implies is_placeholder(
            #[trigger] others[k],
        ) by {
            assert(others[k] == tokens[k + 1]);
        }
        assert forall|k: int| 0 <= k < rest.len() implies is_value(#[trigger] rest[k]) by {
            assert(rest[k] == values[k + 1]);
        }
        assert forall|i: int, j: int|
            0 <= i < others.len() && 0 <= j < others.len() && i != j implies differ(
            #[trigger] others[i],
            #[trigger] others[j],
        ) by {
            assert(others[i] == tokens[i + 1] && others[j] == tokens[j + 1]);
        }
        assert(is_placeholder(tokens[0]) && is_value(values[0]));
        lemma_one_filled(s, t, v, others);
        lemma_end_filled(s, t, v);
        lemma_plain_end_kept(s, end, t, v, tokens);
        law_plain_end_is_kept(replaced(s, t, v), end, others, rest);
    }
}

} // verus!
