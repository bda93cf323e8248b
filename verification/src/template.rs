//! Route templates.
//!
//! A route is registered under a path template such as `/users/:id:/posts/*`. The template is
//! split at `/` into segments. A segment that holds at least two `:` declares one path
//! parameter: the text between its first and its last `:` is the parameter's name, and that
//! stretch (both colons included) becomes a named capture group that matches one segment.
//! Every `/` is escaped, and a template that ends in `/*` matches any non-empty remainder.
use vstd::prelude::*;

use crate::text::{chars_of, string_from_chars};

verus! {

/// The index of the first `c` in `s`, or `s.len()` when there is none.
pub open spec fn first_index_of(s: Seq<char>, c: char) -> int
    decreases s.len(),
{
    if s.len() == 0 {
        0
    } else if s[0] == c {
        0
    } else {
        1 + first_index_of(s.drop_first(), c)
    }
}

/// The index of the last `c` in `s`, or `-1` when there is none.
pub open spec fn last_index_of(s: Seq<char>, c: char) -> int
    decreases s.len(),
{
    if s.len() == 0 {
        -1
    } else if s.last() == c {
        s.len() - 1
    } else {
        last_index_of(s.drop_last(), c)
    }
}

/// `(?<`
pub open spec fn group_open() -> Seq<char> {
    seq!['(', '?', '<']
}

/// `>[^\/]*)`: the end of a parameter's capture group, which matches within one segment.
pub open spec fn group_close() -> Seq<char> {
    seq!['>', '[', '^', '\\', '/', ']', '*', ')']
}

/// `\/`: an escaped segment separator.
pub open spec fn escaped_separator() -> Seq<char> {
    seq!['\\', '/']
}

/// `\/*`: how a trailing wildcard segment reads once separators are escaped.
pub open spec fn wildcard_tail() -> Seq<char> {
    seq!['\\', '/', '*']
}

/// `(.+)`: what the `*` of a trailing wildcard segment becomes.
pub open spec fn wildcard_group() -> Seq<char> {
    seq!['(', '.', '+', ')']
}

/// Whether a segment declares a parameter: it holds two distinct `:`.
pub open spec fn declares_parameter(seg: Seq<char>) -> bool {
    first_index_of(seg, ':') < last_index_of(seg, ':')
}

/// The name of the parameter that a segment declares.
pub open spec fn parameter_name(seg: Seq<char>) -> Seq<char> {
    seg.subrange(first_index_of(seg, ':') + 1, last_index_of(seg, ':'))
}

/// The pattern text of one segment.
pub open spec fn render_segment(seg: Seq<char>) -> Seq<char> {
    if declares_parameter(seg) {
        let f = first_index_of(seg, ':');
        let l = last_index_of(seg, ':');
        seg.take(f) + group_open() + parameter_name(seg) + group_close() + seg.skip(l + 1)
    } else {
        seg
    }
}

/// The parameters that one segment declares (none or one).
pub open spec fn segment_parameters(seg: Seq<char>) -> Seq<Seq<char>> {
    if declares_parameter(seg) {
        seq![parameter_name(seg)]
    } else {
        seq![]
    }
}

/// The pattern text of a template, segment by segment, before the wildcard rule.
pub open spec fn render_path(p: Seq<char>) -> Seq<char>
    decreases p.len(),
{
    let k = first_index_of(p, '/');
    if k < p.len() {
        proof {
            lemma_first_index_bounds(p, '/');
        }
        render_segment(p.take(k)) + escaped_separator() + render_path(p.skip(k + 1))
    } else {
        render_segment(p)
    }
}

/// The parameter names that a template declares, in order.
pub open spec fn path_parameters(p: Seq<char>) -> Seq<Seq<char>>
    decreases p.len(),
{
    let k = first_index_of(p, '/');
    if k < p.len() {
        proof {
            lemma_first_index_bounds(p, '/');
        }
        segment_parameters(p.take(k)) + path_parameters(p.skip(k + 1))
    } else {
        segment_parameters(p)
    }
}

/// Whether a pattern text ends in an escaped wildcard segment `\/*`.
pub open spec fn ends_in_wildcard(r: Seq<char>) -> bool {
    r.len() >= 3 && r.subrange(r.len() - 3, r.len() as int) == wildcard_tail()
}

/// The regular expression text that a template is registered under.
pub open spec fn route_pattern(path: Seq<char>) -> Seq<char> {
    let r = render_path(path);
    if ends_in_wildcard(r) {
        r.drop_last() + wildcard_group()
    } else {
        r
    }
}

pub proof fn lemma_first_index_bounds(s: Seq<char>, c: char)
    ensures
        0 <= first_index_of(s, c) <= s.len(),
        first_index_of(s, c) < s.len() ==> s[first_index_of(s, c)] == c,
        forall|j: int| 0 <= j < first_index_of(s, c) ==> s[j] != c,
    decreases s.len(),
{
    if s.len() > 0 && s[0] != c {
        lemma_first_index_bounds(s.drop_first(), c);
        assert forall|j: int| 0 <= j < first_index_of(s, c) implies s[j] != c by {
            if j > 0 {
                assert(s[j] == s.drop_first()[j - 1]);
            }
        }
    }
}

pub proof fn lemma_last_index_bounds(s: Seq<char>, c: char)
    ensures
        -1 <= last_index_of(s, c) < s.len(),
    decreases s.len(),
{
    if s.len() > 0 && s.last() != c {
        lemma_last_index_bounds(s.drop_last(), c);
    }
}

pub proof fn lemma_first_index_is(s: Seq<char>, c: char, i: int)
    requires
        0 <= i <= s.len(),
        forall|j: int| 0 <= j < i ==> s[j] != c,
        i < s.len() ==> s[i] == c,
    ensures
        first_index_of(s, c) == i,
    decreases i,
{
    if i > 0 {
        assert(s[0] != c);
        assert forall|j: int| 0 <= j < i - 1 implies s.drop_first()[j] != c by {
            assert(s.drop_first()[j] == s[j + 1]);
        }
        lemma_first_index_is(s.drop_first(), c, i - 1);
    }
}

pub proof fn lemma_last_index_is(s: Seq<char>, c: char, i: int)
    requires
        -1 <= i < s.len(),
        forall|j: int| i < j < s.len() ==> s[j] != c,
        i >= 0 ==> s[i] == c,
    ensures
        last_index_of(s, c) == i,
    decreases s.len(),
{
    if s.len() > 0 && s.len() - 1 != i {
        assert(s.last() != c);
        lemma_last_index_is(s.drop_last(), c, i);
    }
}


/// `p` with every `/` written as `\/`.
pub open spec fn escape_slashes(p: Seq<char>) -> Seq<char>
    decreases p.len(),
{
    if p.len() == 0 {
        seq![]
    } else if p[0] == '/' {
        escaped_separator() + escape_slashes(p.drop_first())
    } else {
        seq![p[0]] + escape_slashes(p.drop_first())
    }
}

proof fn lemma_escape_concat(a: Seq<char>, b: Seq<char>)
    ensures
        escape_slashes(a + b) == escape_slashes(a) + escape_slashes(b),
    decreases a.len(),
{
    if a.len() == 0 {
        assert(a + b =~= b);
    } else {
        assert((a + b).drop_first() =~= a.drop_first() + b);
        lemma_escape_concat(a.drop_first(), b);
        assert(escape_slashes(a + b) =~= escape_slashes(a) + escape_slashes(b));
    }
}

proof fn lemma_escape_plain(a: Seq<char>)
    requires
        forall|i: int| 0 <= i < a.len() ==> a[i] != '/',
    ensures
        escape_slashes(a) == a,
    decreases a.len(),
{
    if a.len() > 0 {
        lemma_escape_plain(a.drop_first());
        assert(escape_slashes(a) =~= a);
    }
}

proof fn lemma_no_colon_segment(seg: Seq<char>)
    requires
        forall|i: int| 0 <= i < seg.len() ==> seg[i] != ':',
    ensures
        !declares_parameter(seg),
        render_segment(seg) == seg,
        segment_parameters(seg) == Seq::<Seq<char>>::empty(),
{
    lemma_first_index_is(seg, ':', seg.len() as int);
    lemma_last_index_is(seg, ':', -1);
}

/// A template without `:` declares no parameter, and before the wildcard rule its pattern
/// is the template with every `/` escaped.
pub proof fn lemma_plain_template(p: Seq<char>)
    requires
        forall|i: int| 0 <= i < p.len() ==> p[i] != ':',
    ensures
        path_parameters(p) == Seq::<Seq<char>>::empty(),
        render_path(p) == escape_slashes(p),
    decreases p.len(),
{
    let k = first_index_of(p, '/');
    lemma_first_index_bounds(p, '/');
    if k < p.len() {
        let seg = p.take(k);
        let rest = p.skip(k + 1);
        lemma_no_colon_segment(seg);
        lemma_plain_template(rest);
        lemma_escape_plain(seg);
        assert(p =~= seg + (seq!['/'] + rest));
        lemma_escape_concat(seg, seq!['/'] + rest);
        assert((seq!['/'] + rest).drop_first() =~= rest);
        assert(path_parameters(p) =~= Seq::<Seq<char>>::empty());
    } else {
        lemma_no_colon_segment(p);
        lemma_escape_plain(p);
    }
}

/// Parameter names lie within one segment: no name contains `/`.
pub proof fn lemma_parameter_names_within_segments(p: Seq<char>)
    ensures
        forall|k: int, j: int|
            0 <= k < path_parameters(p).len() && 0 <= j < path_parameters(p)[k].len()
                ==> #[trigger] path_parameters(p)[k][j] != '/',
    decreases p.len(),
{
    let k0 = first_index_of(p, '/');
    lemma_first_index_bounds(p, '/');
    let seg = if k0 < p.len() { p.take(k0) } else { p };
    assert forall|j: int| 0 <= j < seg.len() implies seg[j] != '/' by {}
    if declares_parameter(seg) {
        let f = first_index_of(seg, ':');
        let l = last_index_of(seg, ':');
        lemma_first_index_bounds(seg, ':');
        lemma_last_index_bounds(seg, ':');
        assert forall|j: int| 0 <= j < parameter_name(seg).len() implies parameter_name(seg)[j] != '/' by {
            assert(parameter_name(seg)[j] == seg[f + 1 + j]);
        }
    }
    if k0 < p.len() {
        lemma_parameter_names_within_segments(p.skip(k0 + 1));
        let head = segment_parameters(seg);
        let tail = path_parameters(p.skip(k0 + 1));
        assert forall|k: int, j: int|
            0 <= k < path_parameters(p).len() && 0 <= j < path_parameters(p)[k].len()
                implies #[trigger] path_parameters(p)[k][j] != '/' by {
            if k < head.len() {
                assert(path_parameters(p)[k] == head[k]);
            } else {
                assert(path_parameters(p)[k] == tail[k - head.len()]);
            }
        }
    }
}

/// Rendering a template whose last segment is `s` renders the rest of the template, an
/// escaped separator, and then `s` on its own.
proof fn lemma_render_last_segment(q: Seq<char>, s: Seq<char>)
    requires
        forall|i: int| 0 <= i < s.len() ==> s[i] != '/',
    ensures
        render_path(q + seq!['/'] + s) == render_path(q) + escaped_separator()
            + render_segment(s),
        path_parameters(q + seq!['/'] + s) == path_parameters(q) + segment_parameters(s),
    decreases q.len(),
{
    let x = q + seq!['/'] + s;
    let k = first_index_of(q, '/');
    lemma_first_index_bounds(q, '/');
    lemma_first_index_is(s, '/', s.len() as int);
    assert(render_path(s) == render_segment(s));
    if k < q.len() {
        assert(x[k] == q[k]);
        lemma_first_index_is(x, '/', k);
        let rest = q.skip(k + 1);
        lemma_render_last_segment(rest, s);
        assert(x.take(k) =~= q.take(k));
        assert(x.skip(k + 1) =~= rest + seq!['/'] + s);
        assert(render_path(x) =~= render_path(q) + escaped_separator() + render_segment(s));
        assert(path_parameters(x) =~= path_parameters(q) + segment_parameters(s));
    } else {
        assert(x[q.len() as int] == '/');
        lemma_first_index_is(x, '/', q.len() as int);
        assert(x.take(q.len() as int) =~= q);
        assert(x.skip(q.len() as int + 1) =~= s);
        assert(path_parameters(s) == segment_parameters(s));
        assert(render_path(x) =~= render_path(q) + escaped_separator() + render_segment(s));
        assert(path_parameters(x) =~= path_parameters(q) + segment_parameters(s));
    }
}

/// A template that ends in `/*` is registered under the pattern of the rest of the
/// template followed by `\/(.+)`, whatever parameters the rest declares.
pub proof fn lemma_wildcard_template(q: Seq<char>)
    ensures
        route_pattern(q + seq!['/', '*']) == render_path(q) + escaped_separator()
            + wildcard_group(),
{
    let star = seq!['*'];
    assert(q + seq!['/', '*'] =~= q + seq!['/'] + star);
    lemma_no_colon_segment(star);
    lemma_render_last_segment(q, star);
    let r = render_path(q) + escaped_separator() + star;
    assert(r.subrange(r.len() - 3, r.len() as int) =~= wildcard_tail());
    assert(r.drop_last() + wildcard_group() =~= render_path(q) + escaped_separator()
        + wildcard_group());
}

/// A last segment `:name:` (a name without `:` or `/`) declares the parameter `name`,
/// which comes after those of the rest of the template, and becomes the capture group
/// `(?<name>[^\/]*)` after an escaped separator.
pub proof fn lemma_parameter_segment(q: Seq<char>, name: Seq<char>)
    requires
        forall|i: int| 0 <= i < name.len() ==> name[i] != ':' && name[i] != '/',
    ensures
        route_pattern(q + seq!['/', ':'] + name + seq![':']) == render_path(q)
            + escaped_separator() + group_open() + name + group_close(),
        path_parameters(q + seq!['/', ':'] + name + seq![':']) == path_parameters(q).push(name),
{
    let seg = seq![':'] + name + seq![':'];
    let n = name.len() as int;
    assert(q + seq!['/', ':'] + name + seq![':'] =~= q + seq!['/'] + seg);
    assert forall|i: int| 0 <= i < seg.len() implies seg[i] != '/' by {
        if 0 < i < seg.len() - 1 {
            assert(seg[i] == name[i - 1]);
        }
    }
    assert forall|j: int| 0 < j < seg.len() - 1 implies seg[j] != ':' by {
        assert(seg[j] == name[j - 1]);
    }
    lemma_first_index_is(seg, ':', 0);
    lemma_last_index_is(seg, ':', n + 1);
    assert(parameter_name(seg) =~= name);
    assert(render_segment(seg) =~= group_open() + name + group_close());
    assert(segment_parameters(seg) =~= seq![name]);
    lemma_render_last_segment(q, seg);
    assert(path_parameters(q) + seq![name] =~= path_parameters(q).push(name));
    let r = render_path(q) + escaped_separator() + render_segment(seg);
    assert(r =~= render_path(q) + escaped_separator() + group_open() + name + group_close());
    let m = r.len() as int;
    assert(r[m - 1] == ')');
    assert(r.subrange(m - 3, m)[2] == r[m - 1]);
    assert(!ends_in_wildcard(r));
}

/// A single segment never renders to text ending in `\/*`: it holds no `/` of its own,
/// and a capture group ends in `)`.
proof fn lemma_segment_not_wildcard(seg: Seq<char>)
    requires
        forall|i: int| 0 <= i < seg.len() ==> seg[i] != '/',
    ensures
        !ends_in_wildcard(render_segment(seg)),
{
    let r = render_segment(seg);
    if ends_in_wildcard(r) {
        let n = r.len() as int;
        assert(r.subrange(n - 3, n)[1] == r[n - 2]);
        assert(r.subrange(n - 3, n)[2] == r[n - 1]);
        assert(r[n - 2] == '/' && r[n - 1] == '*');
        if declares_parameter(seg) {
            let f = first_index_of(seg, ':');
            let l = last_index_of(seg, ':');
            lemma_first_index_bounds(seg, ':');
            lemma_last_index_bounds(seg, ':');
            let a = seg.take(f) + group_open() + parameter_name(seg) + group_close();
            let u = seg.skip(l + 1);
            assert(r =~= a + u);
            assert(a.last() == ')');
            if u.len() >= 2 {
                assert(r[n - 2] == u[u.len() - 2]);
                assert(u[u.len() - 2] == seg[l + 1 + u.len() - 2]);
            } else if u.len() == 1 {
                assert(r[n - 2] == a[a.len() - 1]);
            } else {
                assert(r[n - 1] == a[a.len() - 1]);
            }
        } else {
            assert(r[n - 2] == seg[n - 2]);
        }
    }
}

/// The wildcard rule applies only to a template that ends in `/*`: for any other template
/// the pattern is the rendering of its segments, left as it is.
pub proof fn lemma_wildcard_needs_slash_star(p: Seq<char>)
    ensures
        ends_in_wildcard(render_path(p)) ==> p.len() >= 2 && p[p.len() - 2] == '/'
            && p[p.len() - 1] == '*',
        !(p.len() >= 2 && p[p.len() - 2] == '/' && p[p.len() - 1] == '*') ==> route_pattern(p)
            == render_path(p),
    decreases p.len(),
{
    let k = first_index_of(p, '/');
    lemma_first_index_bounds(p, '/');
    if k < p.len() {
        let seg = p.take(k);
        let rest = p.skip(k + 1);
        let big_r = render_path(rest);
        let r = render_segment(seg) + escaped_separator() + big_r;
        assert(render_path(p) == r);
        if ends_in_wildcard(r) {
            let n = r.len() as int;
            let m = big_r.len() as int;
            assert(r.subrange(n - 3, n)[0] == r[n - 3]);
            assert(r.subrange(n - 3, n)[1] == r[n - 2]);
            assert(r.subrange(n - 3, n)[2] == r[n - 1]);
            if m >= 3 {
                assert(big_r.subrange(m - 3, m) =~= r.subrange(n - 3, n));
                lemma_wildcard_needs_slash_star(rest);
                assert(p[p.len() - 2] == rest[rest.len() - 2]);
                assert(p[p.len() - 1] == rest[rest.len() - 1]);
            } else if m == 0 {
                assert(r[n - 1] == '/');
            } else if m == 2 {
                assert(r[n - 3] == '/');
            } else {
                let k2 = first_index_of(rest, '/');
                lemma_first_index_bounds(rest, '/');
                if k2 < rest.len() {
                    assert(big_r.len() >= 2);
                } else {
                    assert(big_r == render_segment(rest));
                    if declares_parameter(rest) {
                        assert(big_r.len() >= 11);
                    }
                    assert(rest.len() == 1);
                    assert(rest[0] == big_r[0]);
                    assert(big_r[0] == r[n - 1]);
                    assert(p.len() == k + 2);
                    assert(p[k + 1] == rest[0]);
                }
            }
        }
    } else {
        lemma_segment_not_wildcard(p);
    }
}

/// The position of the first `c` at or after `from` in `v`, or `v.len()`.
fn find_from(v: &Vec<char>, from: usize, c: char) -> (r: usize)
    requires
        from <= v.len(),
    ensures
        from <= r <= v.len(),
        first_index_of(v@.skip(from as int), c) == r - from,
{
    let mut i = from;
    while i < v.len() && v[i] != c
        invariant
            from <= i <= v.len(),
            forall|j: int| from <= j < i ==> v@[j] != c,
        decreases v.len() - i,
    {
        i = i + 1;
    }
    proof {
        let s = v@.skip(from as int);
        assert forall|j: int| 0 <= j < i - from implies s[j] != c by {
            assert(s[j] == v@[from + j]);
        }
        lemma_first_index_is(s, c, i - from);
    }
    i
}

/// Appends `v[from..to]` to `out`.
fn push_range(out: &mut Vec<char>, v: &Vec<char>, from: usize, to: usize)
    requires
        from <= to <= v.len(),
    ensures
        final(out)@ == old(out)@ + v@.subrange(from as int, to as int),
{
    let mut i = from;
    while i < to
        invariant
            from <= i <= to <= v.len(),
            out@ == old(out)@ + v@.subrange(from as int, i as int),
        decreases to - i,
    {
        out.push(v[i]);
        assert(v@.subrange(from as int, i + 1) =~= v@.subrange(from as int, i as int).push(v@[i as int]));
        i = i + 1;
    }
}

/// The characters `v[from..to]` as a new vector.
fn copy_range(v: &Vec<char>, from: usize, to: usize) -> (r: Vec<char>)
    requires
        from <= to <= v.len(),
    ensures
        r@ == v@.subrange(from as int, to as int),
{
    let mut r: Vec<char> = Vec::new();
    push_range(&mut r, v, from, to);
    assert(r@ =~= v@.subrange(from as int, to as int));
    r
}

/// Renders the segment `v[start..end]` onto `out` and records its parameter.
fn render_segment_into(
    out: &mut Vec<char>,
    params: &mut Vec<String>,
    v: &Vec<char>,
    start: usize,
    end: usize,
)
    requires
        start <= end <= v.len(),
    ensures
        final(out)@ == old(out)@ + render_segment(v@.subrange(start as int, end as int)),
        final(params).deep_view() == old(params).deep_view() + segment_parameters(
            v@.subrange(start as int, end as int),
        ),
{
    let ghost seg = v@.subrange(start as int, end as int);
    // first colon
    let mut f = start;
    while f < end && v[f] != ':'
        invariant
            start <= f <= end <= v.len(),
            forall|j: int| start <= j < f ==> v@[j] != ':',
        decreases end - f,
    {
        f = f + 1;
    }
    proof {
        assert forall|j: int| 0 <= j < f - start implies seg[j] != ':' by {
            assert(seg[j] == v@[start + j]);
        }
        lemma_first_index_is(seg, ':', f - start);
    }
    // last colon: `l` is one past its position, or `start` when there is none
    let mut l = end;
    while l > start && v[l - 1] != ':'
        invariant
            start <= l <= end <= v.len(),
            forall|j: int| l <= j < end ==> v@[j] != ':',
        decreases l - start,
    {
        l = l - 1;
    }
    proof {
        let li = l - start - 1;
        assert forall|j: int| li < j < seg.len() implies seg[j] != ':' by {
            assert(seg[j] == v@[start + j]);
        }
        if li >= 0 {
            assert(seg[li] == v@[l - 1]);
        }
        lemma_last_index_is(seg, ':', li);
    }
    if l > start && f < l - 1 {
        let ghost old_out = out@;
        let ghost old_params = params.deep_view();
        push_range(out, v, start, f);
        out.push('(');
        out.push('?');
        out.push('<');
        push_range(out, v, f + 1, l - 1);
        out.push('>');
        out.push('[');
        out.push('^');
        out.push('\\');
        out.push('/');
        out.push(']');
        out.push('*');
        out.push(')');
        push_range(out, v, l, end);
        let name = copy_range(v, f + 1, l - 1);
        let name_string = string_from_chars(&name);
        params.push(name_string);
        proof {
            let fi = f - start;
            let li = l - start - 1;
            assert(seg.take(fi) =~= v@.subrange(start as int, f as int));
            assert(parameter_name(seg) =~= v@.subrange(f + 1, l - 1));
            assert(seg.skip(li + 1) =~= v@.subrange(l as int, end as int));
            assert(out@ =~= old_out + render_segment(seg));
            assert(params.deep_view() =~= old_params + segment_parameters(seg));
        }
    } else {
        let ghost old_out = out@;
        push_range(out, v, start, end);
        proof {
            assert(params.deep_view() =~= old(params).deep_view() + segment_parameters(seg));
        }
    }
}

/// Turns a route template into the text of its regular expression and the names of its
/// parameters, in the order in which they appear.
pub fn extract_path_parameter(path: &String) -> (r: (String, Vec<String>))
    ensures
        r.0@ == route_pattern(path@),
        r.1.deep_view() == path_parameters(path@),
{
    let v = chars_of(path.as_str());
    let mut out: Vec<char> = Vec::new();
    let mut params: Vec<String> = Vec::new();
    let mut start: usize = 0;
    proof {
        assert(v@.skip(0) =~= v@);
        assert(out@ + render_path(v@.skip(0)) =~= render_path(v@));
        assert(params.deep_view() + path_parameters(v@.skip(0)) =~= path_parameters(v@));
    }
    loop
        invariant_except_break
            start <= v.len(),
            render_path(v@) == out@ + render_path(v@.skip(start as int)),
            path_parameters(v@) == params.deep_view() + path_parameters(v@.skip(start as int)),
        ensures
            render_path(v@) == out@,
            path_parameters(v@) == params.deep_view(),
        decreases v.len() - start,
    {
        let end = find_from(&v, start, '/');
        let ghost s = v@.skip(start as int);
        let ghost k = end - start;
        let ghost out_before = out@;
        let ghost params_before = params.deep_view();
        render_segment_into(&mut out, &mut params, &v, start, end);
        if end == v.len() {
            proof {
                assert(s =~= v@.subrange(start as int, end as int));
                assert(out@ =~= out_before + render_path(s));
                assert(params.deep_view() =~= params_before + path_parameters(s));
            }
            break;
        }
        out.push('\\');
        out.push('/');
        proof {
            assert(s.take(k) =~= v@.subrange(start as int, end as int));
            assert(s.skip(k + 1) =~= v@.skip(end + 1));
            assert(render_path(s) == render_segment(s.take(k)) + escaped_separator() + render_path(
                s.skip(k + 1),
            ));
            assert(out_before + render_path(s) =~= out@ + render_path(v@.skip(end + 1)));
            assert(params_before + path_parameters(s) =~= params.deep_view() + path_parameters(
                v@.skip(end + 1),
            ));
        }
        start = end + 1;
    }
    let n = out.len();
    if n >= 3 && out[n - 3] == '\\' && out[n - 2] == '/' && out[n - 1] == '*' {
        proof {
            assert(out@.subrange(n - 3, n as int) =~= wildcard_tail());
        }
        let ghost before = out@;
        out.pop();
        out.push('(');
        out.push('.');
        out.push('+');
        out.push(')');
        assert(out@ =~= before.drop_last() + wildcard_group());
    } else {
        proof {
            if n >= 3 {
                let t = out@.subrange(n - 3, n as int);
                assert(t[0] == out@[n - 3] && t[1] == out@[n - 2] && t[2] == out@[n - 1]);
            }
        }
    }
    (string_from_chars(&out), params)
}

} // verus!
