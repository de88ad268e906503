//! Variables: `{{var}}` interpolation and the merging of variable scopes.

use vstd::prelude::*;

use crate::model::Request;
use crate::string_map::{pairs_to_map, StringMap};
use crate::text::{
    chars_of, is_white_space, push_char, push_chars, string_of, trim, trim_end, trim_range, trim_start,
};

verus! {

/// `s` holds `{{` at position `i`.
pub open spec fn opens_at(s: Seq<char>, i: int) -> bool {
    0 <= i && i + 1 < s.len() && s[i] == '{' && s[i + 1] == '{'
}

/// `s` holds `}}` at position `j`.
pub open spec fn closes_at(s: Seq<char>, j: int) -> bool {
    0 <= j && j + 1 < s.len() && s[j] == '}' && s[j + 1] == '}'
}

/// The first position at or after `i` where `}}` starts, or `s.len()` when
/// there is none.
pub open spec fn close_from(s: Seq<char>, i: int) -> int
    decreases s.len() - i,
{
    if i + 1 >= s.len() {
        s.len() as int
    } else if closes_at(s, i) {
        i
    } else {
        close_from(s, i + 1)
    }
}

/// What a complete placeholder `{{name}}` becomes: the value of the trimmed
/// name where it is a variable, else the placeholder itself.
pub open spec fn placeholder(name: Seq<char>, vars: Map<Seq<char>, Seq<char>>) -> Seq<char> {
    if vars.contains_key(trim(name)) {
        vars[trim(name)]
    } else {
        seq!['{', '{'] + name + seq!['}', '}']
    }
}

/// The interpolation of `s[i..]`: characters are copied, except that `{{`
/// starts a placeholder that runs to the first following `}}`; a `{{` with no
/// `}}` after it leaves the rest of the text as it is.
pub open spec fn render_from(s: Seq<char>, i: int, vars: Map<Seq<char>, Seq<char>>) -> Seq<char>
    decreases s.len() - i,
{
    if i < 0 || i >= s.len() {
        Seq::empty()
    } else if opens_at(s, i) {
        let j = close_from(s, i + 2);
        if j >= s.len() {
            s.subrange(i, s.len() as int)
        } else {
            proof {
                lemma_close_from_bounds(s, i + 2);
            }
            placeholder(s.subrange(i + 2, j), vars) + render_from(s, j + 2, vars)
        }
    } else {
        seq![s[i]] + render_from(s, i + 1, vars)
    }
}

/// The text `s` with its placeholders resolved against `vars`.
pub open spec fn interpolated(s: Seq<char>, vars: Map<Seq<char>, Seq<char>>) -> Seq<char> {
    render_from(s, 0, vars)
}

/// `close_from` finds a `}}` at or after `i`, or reports the end of the text.
pub proof fn lemma_close_from_bounds(s: Seq<char>, i: int)
    requires
        0 <= i,
    ensures
        close_from(s, i) == s.len() || (i <= close_from(s, i) && closes_at(s, close_from(s, i))),
        close_from(s, i) >= i || close_from(s, i) == s.len(),
        forall|k: int| i <= k < close_from(s, i) ==> !closes_at(s, k),
    decreases s.len() - i,
{
    if i + 1 < s.len() && !closes_at(s, i) {
        lemma_close_from_bounds(s, i + 1);
    }
}

/// Replaces each `{{name}}` in `input` by the value of the trimmed `name` in
/// `vars`. A placeholder whose name is not a variable is left untouched, and
/// so is the text from a `{{` that is never closed.
pub fn interpolate(input: &str, vars: &StringMap) -> (r: String)
    ensures
        r@ == interpolated(input@, vars@),
{
    let cs = chars_of(input);
    let n = cs.len();
    let ghost s = cs@;
    let ghost vs = vars@;
    let mut out = String::new();
    let mut i: usize = 0;
    assert(out@ + render_from(s, 0, vs) =~= render_from(s, 0, vs));
    while i < n
        invariant
            s == cs@,
            vs == vars@,
            n == cs.len(),
            i <= n,
            out@ + render_from(s, i as int, vs) == render_from(s, 0, vs),
        decreases n - i,
    {
        let ghost before = out@;
        if cs[i] == '{' && i + 1 < n && cs[i + 1] == '{' {
            let mut j: usize = i + 2;
            while j < n && !(j + 1 < n && cs[j] == '}' && cs[j + 1] == '}')
                invariant
                    s == cs@,
                    n == cs.len(),
                    i + 2 <= j <= n,
                    close_from(s, j as int) == close_from(s, i + 2),
                decreases n - j,
            {
                j = j + 1;
            }
            assert(close_from(s, j as int) == j);
            if j >= n {
                push_chars(&mut out, &cs, i, n);
                assert(out@ + render_from(s, n as int, vs) =~= before + render_from(s, i as int, vs));
                i = n;
            } else {
                proof {
                    lemma_close_from_bounds(s, i + 2);
                }
                let (a, b) = trim_range(&cs, i + 2, j);
                let key = string_of(&cs, a, b);
                match vars.get(key.as_str()) {
                    Some(v) => {
                        out.append(v.as_str());
                    },
                    None => {
                        push_char(&mut out, '{');
                        push_char(&mut out, '{');
                        push_chars(&mut out, &cs, i + 2, j);
                        push_char(&mut out, '}');
                        push_char(&mut out, '}');
                    },
                }
                assert(out@ =~= before + placeholder(s.subrange(i + 2, j as int), vs));
                assert(out@ + render_from(s, j + 2, vs) =~= before + render_from(s, i as int, vs));
                i = j + 2;
            }
        } else {
            push_char(&mut out, cs[i]);
            assert(out@ + render_from(s, i + 1, vs) =~= before + render_from(s, i as int, vs));
            i = i + 1;
        }
    }
    assert(out@ =~= render_from(s, 0, vs));
    out
}

/// `close_from` does not depend on the text before the search position.
proof fn lemma_close_from_shift(s: Seq<char>, d: int, i: int)
    requires
        0 <= d <= i,
        d <= s.len(),
    ensures
        close_from(s, i) == close_from(s.skip(d), i - d) + d,
    decreases s.len() - i,
{
    let t = s.skip(d);
    if i + 1 < s.len() {
        assert(t[i - d] == s[i] && t[i - d + 1] == s[i + 1]);
        assert(closes_at(s, i) == closes_at(t, i - d));
        if !closes_at(s, i) {
            lemma_close_from_shift(s, d, i + 1);
        }
    }
}

/// The interpolation of `s[i..]` depends only on `s[i..]`.
proof fn lemma_render_shift(s: Seq<char>, d: int, i: int, vars: Map<Seq<char>, Seq<char>>)
    requires
        0 <= d <= i,
        d <= s.len(),
    ensures
        render_from(s, i, vars) == render_from(s.skip(d), i - d, vars),
    decreases s.len() - i,
{
    let t = s.skip(d);
    if i < s.len() {
        assert(t[i - d] == s[i]);
        if i + 1 < s.len() {
            assert(t[i - d + 1] == s[i + 1]);
        }
        assert(opens_at(s, i) == opens_at(t, i - d));
        if opens_at(s, i) {
            lemma_close_from_shift(s, d, i + 2);
            lemma_close_from_bounds(s, i + 2);
            let j = close_from(s, i + 2);
            if j >= s.len() {
                assert(s.subrange(i, s.len() as int) =~= t.subrange(i - d, t.len() as int));
            } else {
                lemma_render_shift(s, d, j + 2, vars);
                assert(s.subrange(i + 2, j) =~= t.subrange(i - d + 2, j - d));
            }
        } else {
            lemma_render_shift(s, d, i + 1, vars);
        }
    }
}

/// The interpolation of `s[i..]` is that of the text `s[i..]`.
pub proof fn lemma_render_from_suffix(s: Seq<char>, i: int, vars: Map<Seq<char>, Seq<char>>)
    requires
        0 <= i <= s.len(),
    ensures
        render_from(s, i, vars) == interpolated(s.skip(i), vars),
{
    lemma_render_shift(s, i, i, vars);
}

/// Text without `{{` is left as it is, whatever the variables.
pub proof fn lemma_interpolate_plain_text(s: Seq<char>, vars: Map<Seq<char>, Seq<char>>)
    requires
        forall|i: int| !opens_at(s, i),
    ensures
        interpolated(s, vars) == s,
{
    lemma_plain_suffix(s, 0, vars);
    assert(s.subrange(0, s.len() as int) =~= s);
}

proof fn lemma_plain_suffix(s: Seq<char>, i: int, vars: Map<Seq<char>, Seq<char>>)
    requires
        0 <= i <= s.len(),
        forall|k: int| !opens_at(s, k),
    ensures
        render_from(s, i, vars) == s.subrange(i, s.len() as int),
    decreases s.len() - i,
{
    if i < s.len() {
        assert(!opens_at(s, i));
        lemma_plain_suffix(s, i + 1, vars);
        assert(seq![s[i]] + s.subrange(i + 1, s.len() as int) =~= s.subrange(i, s.len() as int));
    } else {
        assert(s.subrange(i, s.len() as int) =~= Seq::<char>::empty());
    }
}

/// With no variables at all, every placeholder is left untouched, so the text
/// comes back unchanged.
pub proof fn lemma_interpolate_no_variables(s: Seq<char>)
    ensures
        interpolated(s, Map::empty()) == s,
{
    lemma_no_variables_suffix(s, 0);
    assert(s.subrange(0, s.len() as int) =~= s);
}

proof fn lemma_no_variables_suffix(s: Seq<char>, i: int)
    requires
        0 <= i <= s.len(),
    ensures
        render_from(s, i, Map::empty()) == s.subrange(i, s.len() as int),
    decreases s.len() - i,
{
    if i < s.len() {
        if opens_at(s, i) {
            lemma_close_from_bounds(s, i + 2);
            let j = close_from(s, i + 2);
            if j < s.len() {
                lemma_no_variables_suffix(s, j + 2);
                assert(placeholder(s.subrange(i + 2, j), Map::empty()) + s.subrange(
                    j + 2,
                    s.len() as int,
                ) =~= s.subrange(i, s.len() as int));
            }
        } else {
            lemma_no_variables_suffix(s, i + 1);
            assert(seq![s[i]] + s.subrange(i + 1, s.len() as int) =~= s.subrange(
                i,
                s.len() as int,
            ));
        }
    } else {
        assert(s.subrange(i, s.len() as int) =~= Seq::<char>::empty());
    }
}

/// The first `}}` at or after `a` is at `b` when there is none in between.
proof fn lemma_close_from_at(s: Seq<char>, a: int, b: int)
    requires
        0 <= a <= b,
        closes_at(s, b),
        forall|k: int| a <= k < b ==> !closes_at(s, k),
    ensures
        close_from(s, a) == b,
    decreases b - a,
{
    if a < b {
        lemma_close_from_at(s, a + 1, b);
    }
}

/// `p` holds no `{{` and does not end in `{`: nothing in it starts a
/// placeholder, whatever follows it.
pub open spec fn starts_no_placeholder(p: Seq<char>) -> bool {
    &&& forall|i: int| 0 <= i < p.len() - 1 ==> !(p[i] == '{' && #[trigger] p[i + 1] == '{')
    &&& (p.len() > 0 ==> p[p.len() - 1] != '{')
}

/// Text that starts no placeholder is copied as it is, a lone `{` included,
/// and interpolation goes on with what follows it.
pub proof fn lemma_interpolate_plain_prefix(p: Seq<char>, q: Seq<char>, vars: Map<Seq<char>, Seq<char>>)
    requires
        starts_no_placeholder(p),
    ensures
        interpolated(p + q, vars) == p + interpolated(q, vars),
{
    let s = p + q;
    lemma_prefix_steps(s, p, p.len() as int, vars);
    lemma_render_from_suffix(s, p.len() as int, vars);
    assert(s.skip(p.len() as int) =~= q);
    assert(p.take(p.len() as int) =~= p);
}

/// A placeholder is resolved on its own: in `p{{name}}q`, where `p` starts no
/// placeholder and `name` holds no `}`, the text `p` is kept, `{{name}}`
/// becomes the value of the trimmed name where that is a variable and stays
/// as it is otherwise, and `q` is interpolated in turn.
pub proof fn lemma_interpolate_placeholder(
    p: Seq<char>,
    name: Seq<char>,
    q: Seq<char>,
    vars: Map<Seq<char>, Seq<char>>,
)
    requires
        starts_no_placeholder(p),
        forall|i: int| 0 <= i < name.len() ==> name[i] != '}',
    ensures
        interpolated(p + seq!['{', '{'] + name + seq!['}', '}'] + q, vars) == p + (if vars.contains_key(
            trim(name),
        ) {
            vars[trim(name)]
        } else {
            seq!['{', '{'] + name + seq!['}', '}']
        }) + interpolated(q, vars),
{
    let r = seq!['{', '{'] + name + seq!['}', '}'] + q;
    lemma_interpolate_plain_prefix(p, r, vars);
    assert(p + seq!['{', '{'] + name + seq!['}', '}'] + q =~= p + r);
    let b: int = 2 + name.len() as int;
    assert(opens_at(r, 0));
    assert(closes_at(r, b));
    assert forall|k: int| 2 <= k < b implies !closes_at(r, k) by {
        assert(r[k] == name[k - 2]);
    }
    lemma_close_from_at(r, 2, b);
    assert(r.subrange(2, b) =~= name);
    lemma_render_from_suffix(r, b + 2, vars);
    assert(r.skip(b + 2) =~= q);
}

proof fn lemma_prefix_steps(s: Seq<char>, p: Seq<char>, k: int, vars: Map<Seq<char>, Seq<char>>)
    requires
        0 <= k <= p.len(),
        p.len() <= s.len(),
        p =~= s.take(p.len() as int),
        starts_no_placeholder(p),
    ensures
        render_from(s, 0, vars) == p.take(k) + render_from(s, k, vars),
    decreases k,
{
    if k == 0 {
        assert(p.take(0) + render_from(s, 0, vars) =~= render_from(s, 0, vars));
    } else {
        lemma_prefix_steps(s, p, k - 1, vars);
        assert(s[k - 1] == p[k - 1]);
        if k < p.len() {
            assert(s[k] == p[k]);
            assert(!(p[k - 1] == '{' && p[k] == '{'));
        }
        assert(!opens_at(s, k - 1));
        assert(p.take(k - 1) + (seq![s[k - 1]] + render_from(s, k, vars)) =~= p.take(k)
            + render_from(s, k, vars));
    }
}

/// Trimming removes exactly the white space around a core that neither
/// starts nor ends with white space.
pub proof fn lemma_trim_padded(w1: Seq<char>, c: Seq<char>, w2: Seq<char>)
    requires
        forall|i: int| 0 <= i < w1.len() ==> is_white_space(#[trigger] w1[i]),
        forall|i: int| 0 <= i < w2.len() ==> is_white_space(#[trigger] w2[i]),
        c.len() > 0 ==> !is_white_space(c[0]) && !is_white_space(c[c.len() - 1]),
    ensures
        trim(w1 + c + w2) == c,
{
    if c.len() == 0 {
        let w = w1 + c + w2;
        assert forall|i: int| 0 <= i < w.len() implies is_white_space(#[trigger] w[i]) by {
            if i < w1.len() {
                assert(w[i] == w1[i]);
            } else {
                assert(w[i] == w2[i - w1.len()]);
            }
        }
        lemma_trim_start_drops(w, Seq::empty());
        assert(w + Seq::<char>::empty() =~= w);
        assert(c =~= Seq::<char>::empty());
    } else {
        lemma_trim_start_drops(w1, c + w2);
        assert(w1 + c + w2 =~= w1 + (c + w2));
        lemma_trim_end_drops(c, w2);
    }
}

proof fn lemma_trim_start_drops(w: Seq<char>, t: Seq<char>)
    requires
        forall|i: int| 0 <= i < w.len() ==> is_white_space(#[trigger] w[i]),
        t.len() > 0 ==> !is_white_space(t[0]),
    ensures
        trim_start(w + t) == t,
    decreases w.len(),
{
    if w.len() > 0 {
        assert((w + t).drop_first() =~= w.drop_first() + t);
        assert((w + t)[0] == w[0]);
        lemma_trim_start_drops(w.drop_first(), t);
    } else {
        assert(w + t =~= t);
    }
}

proof fn lemma_trim_end_drops(t: Seq<char>, w: Seq<char>)
    requires
        forall|i: int| 0 <= i < w.len() ==> is_white_space(#[trigger] w[i]),
        t.len() > 0 ==> !is_white_space(t[t.len() - 1]),
    ensures
        trim_end(t + w) == t,
    decreases w.len(),
{
    if w.len() > 0 {
        assert((t + w).drop_last() =~= t + w.drop_last());
        assert((t + w).last() == w[w.len() - 1]);
        lemma_trim_end_drops(t, w.drop_last());
    } else {
        assert(t + w =~= t);
    }
}

/// The lookup table of the four variable scopes: each scope overrides the ones
/// before it.
pub open spec fn merged_scopes(
    global: Map<Seq<char>, Seq<char>>,
    collection: Map<Seq<char>, Seq<char>>,
    env: Map<Seq<char>, Seq<char>>,
    request: Map<Seq<char>, Seq<char>>,
) -> Map<Seq<char>, Seq<char>> {
    global.union_prefer_right(collection).union_prefer_right(env).union_prefer_right(request)
}

/// A variable of the merged table is one of some scope, and its value comes
/// from the highest scope that defines it: request, then environment, then
/// collection, then global.
pub proof fn lemma_scope_precedence(
    global: Map<Seq<char>, Seq<char>>,
    collection: Map<Seq<char>, Seq<char>>,
    env: Map<Seq<char>, Seq<char>>,
    request: Map<Seq<char>, Seq<char>>,
    k: Seq<char>,
)
    ensures
        merged_scopes(global, collection, env, request).contains_key(k) <==> (global.contains_key(k)
            || collection.contains_key(k) || env.contains_key(k) || request.contains_key(k)),
        request.contains_key(k) ==> merged_scopes(global, collection, env, request)[k]
            == request[k],
        !request.contains_key(k) && env.contains_key(k) ==> merged_scopes(
            global,
            collection,
            env,
            request,
        )[k] == env[k],
        !request.contains_key(k) && !env.contains_key(k) && collection.contains_key(k)
            ==> merged_scopes(global, collection, env, request)[k] == collection[k],
        !request.contains_key(k) && !env.contains_key(k) && !collection.contains_key(k)
            && global.contains_key(k) ==> merged_scopes(global, collection, env, request)[k]
            == global[k],
{
}

/// Resolves variables across the four scopes into one lookup table, with
/// precedence request over environment over collection over global.
pub fn resolve_scopes(
    global: &StringMap,
    collection: &StringMap,
    env: &StringMap,
    request: &StringMap,
) -> (r: StringMap)
    ensures
        r@ == merged_scopes(global@, collection@, env@, request@),
{
    let mut resolved = StringMap::new();
    resolved.extend_from(global);
    assert(Map::<Seq<char>, Seq<char>>::empty().union_prefer_right(global@) =~= global@);
    resolved.extend_from(collection);
    resolved.extend_from(env);
    resolved.extend_from(request);
    resolved
}

/// Each value of `m` interpolated against `vars`.
pub open spec fn interpolated_values(
    m: Map<Seq<char>, Seq<char>>,
    vars: Map<Seq<char>, Seq<char>>,
) -> Map<Seq<char>, Seq<char>> {
    Map::new(|k: Seq<char>| m.contains_key(k), |k: Seq<char>| interpolated(m[k], vars))
}

/// Interpolating the values of a table keeps its keys and interpolates each
/// value on its own.
pub proof fn lemma_interpolated_values(
    m: Map<Seq<char>, Seq<char>>,
    vars: Map<Seq<char>, Seq<char>>,
    k: Seq<char>,
)
    ensures
        interpolated_values(m, vars).contains_key(k) == m.contains_key(k),
        m.contains_key(k) ==> interpolated_values(m, vars)[k] == interpolated(m[k], vars),
{
}

/// Resolves the variables of a request before it is sent: its URL and the
/// values of its headers are interpolated; the rest is kept as it is.
pub fn apply_variables(req: &mut Request, vars: &StringMap)
    ensures
        final(req).url@ == interpolated(old(req).url@, vars@),
        final(req).headers@ == interpolated_values(old(req).headers@, vars@),
        final(req).method == old(req).method,
        final(req).body == old(req).body,
        final(req).auth == old(req).auth,
{
    let url = interpolate(req.url.as_str(), vars);
    let ps = req.headers.pairs();
    let ghost s = ps@;
    let mut headers = StringMap::new();
    let mut i: usize = 0;
    assert(interpolated_values(pairs_to_map(s.take(0)), vars@) =~= Map::<
        Seq<char>,
        Seq<char>,
    >::empty());
    while i < ps.len()
        invariant
            s == ps@,
            i <= ps.len(),
            headers@ == interpolated_values(pairs_to_map(s.take(i as int)), vars@),
        decreases ps.len() - i,
    {
        let v = interpolate(ps[i].1.as_str(), vars);
        headers.insert(ps[i].0.clone(), v);
        assert(s.take(i + 1).drop_last() =~= s.take(i as int));
        assert(headers@ =~= interpolated_values(pairs_to_map(s.take(i + 1)), vars@));
        i = i + 1;
    }
    assert(s.take(ps.len() as int) =~= s);
    req.url = url;
    req.headers = headers;
}

} // verus!
