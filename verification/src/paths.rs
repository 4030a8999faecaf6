//! Lexical path handling: which paths are trusted absolute paths, their
//! normal form, and the key two paths are compared by.
use vstd::prelude::*;

use crate::text::{
    ascii_lower_exec, chars_of, concat, find_char, slice, split, split_exec, string_of,
    to_ascii_lowercase, views,
};

verus! {

/// The path conventions of the platform the paths come from.
#[derive(Debug, Clone, Copy, PartialEq, Eq, Structural)]
pub enum PathStyle {
    /// `/` separates components; a path is absolute when it starts with `/`.
    Unix,
    /// `\` and `/` separate components; a trusted path starts with a drive.
    Windows,
}

pub open spec fn is_sep(style: PathStyle, c: char) -> bool {
    match style {
        PathStyle::Unix => c == '/',
        PathStyle::Windows => c == '/' || c == '\\',
    }
}

/// The separator that paths are written with.
pub open spec fn main_sep(style: PathStyle) -> char {
    match style {
        PathStyle::Unix => '/',
        PathStyle::Windows => '\\',
    }
}

pub open spec fn is_ascii_alpha(c: char) -> bool {
    ('a' <= c && c <= 'z') || ('A' <= c && c <= 'Z')
}

/// `s` starts with a drive prefix such as `C:`.
pub open spec fn has_drive(s: Seq<char>) -> bool {
    s.len() >= 2 && is_ascii_alpha(s[0]) && s[1] == ':'
}

/// The lexical half of a trusted path: absolute, and on Windows rooted in a
/// drive (no UNC, device or verbatim prefix).
pub open spec fn trusted_form(s: Seq<char>, style: PathStyle) -> bool {
    match style {
        PathStyle::Unix => s.len() > 0 && s[0] == '/',
        PathStyle::Windows => s.len() >= 3 && has_drive(s) && is_sep(style, s[2]),
    }
}

/// How many characters of a trusted path make up its prefix.
pub open spec fn prefix_len(style: PathStyle) -> int {
    match style {
        PathStyle::Unix => 0,
        PathStyle::Windows => 2,
    }
}

/// The prefix and root that a normal form starts with.
pub open spec fn root_text(s: Seq<char>, style: PathStyle) -> Seq<char> {
    s.take(prefix_len(style)) + seq![main_sep(style)]
}

/// Every separator written as `/`.
pub open spec fn unify(s: Seq<char>, style: PathStyle) -> Seq<char> {
    s.map_values(|c: char| if is_sep(style, c) { '/' } else { c })
}

/// The pieces between separators after the prefix.
pub open spec fn pieces(s: Seq<char>, style: PathStyle) -> Seq<Seq<char>> {
    split(unify(s.skip(prefix_len(style)), style), '/')
}

pub open spec fn is_dot(c: Seq<char>) -> bool {
    c == seq!['.']
}

pub open spec fn is_dot_dot(c: Seq<char>) -> bool {
    c == seq!['.', '.']
}

/// One piece applied to the components so far: empty pieces and `.` change
/// nothing, `..` removes the last component (if any), any other piece is added.
pub open spec fn resolve(stack: Seq<Seq<char>>, piece: Seq<char>) -> Seq<Seq<char>> {
    if piece.len() == 0 || is_dot(piece) {
        stack
    } else if is_dot_dot(piece) {
        if stack.len() > 0 {
            stack.drop_last()
        } else {
            stack
        }
    } else {
        stack.push(piece)
    }
}

/// The pieces applied in order.
pub open spec fn resolve_all(stack: Seq<Seq<char>>, ps: Seq<Seq<char>>) -> Seq<Seq<char>>
    decreases ps.len(),
{
    if ps.len() == 0 {
        stack
    } else {
        resolve_all(resolve(stack, ps[0]), ps.drop_first())
    }
}

/// The parts written one after the other with `sep` between them.
pub open spec fn join(parts: Seq<Seq<char>>, sep: char) -> Seq<char>
    decreases parts.len(),
{
    if parts.len() == 0 {
        seq![]
    } else if parts.len() == 1 {
        parts[0]
    } else {
        join(parts.drop_last(), sep) + seq![sep] + parts.last()
    }
}

/// The components of a trusted path after `.` and `..` are resolved.
pub open spec fn normal_components(s: Seq<char>, style: PathStyle) -> Seq<Seq<char>> {
    resolve_all(seq![], pieces(s, style))
}

/// The normal form of a path: `None` for a path that is not a trusted
/// absolute path, else its prefix and root followed by its resolved
/// components.
pub open spec fn normalize(s: Seq<char>, style: PathStyle) -> Option<Seq<char>> {
    if trusted_form(s, style) {
        Some(root_text(s, style) + join(normal_components(s, style), main_sep(style)))
    } else {
        None
    }
}

/// The key two paths are compared by: `/` read as `\`, ASCII case folded.
pub open spec fn path_key(s: Seq<char>) -> Seq<char> {
    to_ascii_lowercase(s.map_values(|c: char| if c == '/' { '\\' } else { c }))
}

// ---------------------------------------------------------------------------
pub fn is_sep_exec(style: PathStyle, c: char) -> (r: bool)
    ensures
        r == is_sep(style, c),
{
    match style {
        PathStyle::Unix => c == '/',
        PathStyle::Windows => c == '/' || c == '\\',
    }
}

fn trusted_form_exec(s: &Vec<char>, style: PathStyle) -> (r: bool)
    ensures
        r == trusted_form(s@, style),
{
    match style {
        PathStyle::Unix => s.len() > 0 && s[0] == '/',
        PathStyle::Windows => s.len() >= 3 && (('a' <= s[0] && s[0] <= 'z') || ('A' <= s[0]
            && s[0] <= 'Z')) && s[1] == ':' && is_sep_exec(style, s[2]),
    }
}

/// Whether `path` has the form of a trusted absolute path: absolute, and on
/// Windows rooted in a drive letter.
pub fn is_trusted_absolute_form(path: &str, style: PathStyle) -> (r: bool)
    ensures
        r == trusted_form(path@, style),
{
    let s = chars_of(path);
    trusted_form_exec(&s, style)
}

fn unify_exec(s: &Vec<char>, style: PathStyle) -> (r: Vec<char>)
    ensures
        r@ == unify(s@, style),
{
    let mut out: Vec<char> = Vec::new();
    let mut i: usize = 0;
    while i < s.len()
        invariant
            i <= s.len(),
            out@ == unify(s@.take(i as int), style),
        decreases s.len() - i,
    {
        if is_sep_exec(style, s[i]) {
            out.push('/');
        } else {
            out.push(s[i]);
        }
        i += 1;
        assert(out@ =~= unify(s@.take(i as int), style));
    }
    assert(s@.take(s.len() as int) =~= s@);
    out
}

fn is_dot_exec(c: &Vec<char>) -> (r: bool)
    ensures
        r == is_dot(c@),
{
    if c.len() == 1 && c[0] == '.' {
        assert(c@ =~= seq!['.']);
        true
    } else {
        false
    }
}

fn is_dot_dot_exec(c: &Vec<char>) -> (r: bool)
    ensures
        r == is_dot_dot(c@),
{
    if c.len() == 2 && c[0] == '.' && c[1] == '.' {
        assert(c@ =~= seq!['.', '.']);
        true
    } else {
        false
    }
}

proof fn lemma_resolve_all_step(stack: Seq<Seq<char>>, ps: Seq<Seq<char>>, i: int)
    requires
        0 <= i < ps.len(),
    ensures
        resolve_all(stack, ps.take(i + 1)) == resolve(resolve_all(stack, ps.take(i)), ps[i]),
    decreases i,
{
    let t1 = ps.take(i + 1);
    let t0 = ps.take(i);
    assert(t1[0] == ps[0]);
    if i == 0 {
        assert(t1.drop_first() =~= Seq::<Seq<char>>::empty());
        assert(t0 =~= Seq::<Seq<char>>::empty());
        assert(resolve_all(stack, t1) == resolve_all(resolve(stack, ps[0]), t1.drop_first()));
    } else {
        let s2 = resolve(stack, ps[0]);
        let p2 = ps.drop_first();
        lemma_resolve_all_step(s2, p2, i - 1);
        assert(t1.drop_first() =~= p2.take(i));
        assert(t0.drop_first() =~= p2.take(i - 1));
        assert(t0[0] == ps[0]);
        assert(resolve_all(stack, t1) == resolve_all(s2, t1.drop_first()));
        assert(resolve_all(stack, t0) == resolve_all(s2, t0.drop_first()));
    }
}

/// The components of `s` with `.` and `..` resolved.
fn normal_components_exec(s: &Vec<char>, style: PathStyle) -> (r: Vec<Vec<char>>)
    requires
        trusted_form(s@, style),
    ensures
        views(r@) == normal_components(s@, style),
{
    let pl: usize = match style {
        PathStyle::Unix => 0,
        PathStyle::Windows => 2,
    };
    let body = slice(s, pl, s.len());
    assert(body@ =~= s@.skip(prefix_len(style)));
    let u = unify_exec(&body, style);
    let ps = split_exec(&u, '/');
    let ghost gps = pieces(s@, style);
    let mut stack: Vec<Vec<char>> = Vec::new();
    let mut i: usize = 0;
    assert(gps.take(0) =~= Seq::<Seq<char>>::empty());
    while i < ps.len()
        invariant
            i <= ps.len(),
            views(ps@) == gps,
            views(stack@) == resolve_all(seq![], gps.take(i as int)),
        decreases ps.len() - i,
    {
        proof {
            lemma_resolve_all_step(seq![], gps, i as int);
        }
        let ghost before = views(stack@);
        let piece = &ps[i];
        assert(piece@ == gps[i as int]);
        if piece.len() == 0 || is_dot_exec(piece) {
        } else if is_dot_dot_exec(piece) {
            if stack.len() > 0 {
                stack.pop();
                assert(views(stack@) =~= before.drop_last());
            }
        } else {
            stack.push(slice(piece, 0, piece.len()));
            assert(piece@.subrange(0, piece@.len() as int) =~= piece@);
            assert(views(stack@) =~= before.push(piece@));
        }
        i += 1;
    }
    assert(gps.take(ps.len() as int) =~= gps);
    stack
}

/// The parts written with `sep` between them.
fn join_exec(parts: &Vec<Vec<char>>, sep: char) -> (r: Vec<char>)
    ensures
        r@ == join(views(parts@), sep),
{
    let mut out: Vec<char> = Vec::new();
    let mut i: usize = 0;
    while i < parts.len()
        invariant
            i <= parts.len(),
            out@ == join(views(parts@).take(i as int), sep),
        decreases parts.len() - i,
    {
        let ghost before = out@;
        if i > 0 {
            out.push(sep);
        }
        let ghost mid = out@;
        let p = &parts[i];
        let mut k: usize = 0;
        while k < p.len()
            invariant
                k <= p.len(),
                out@ == mid + p@.take(k as int),
            decreases p.len() - k,
        {
            out.push(p[k]);
            k += 1;
            assert(out@ =~= mid + p@.take(k as int));
        }
        proof {
            assert(p@.take(p.len() as int) =~= p@);
            let vs = views(parts@);
            assert(vs.take(i + 1).drop_last() =~= vs.take(i as int));
            assert(vs.take(i + 1).last() == p@);
            if i == 0 {
                assert(out@ =~= join(vs.take(1), sep));
            } else {
                assert(out@ =~= before + seq![sep] + p@);
            }
        }
        i += 1;
    }
    assert(views(parts@).take(parts.len() as int) =~= views(parts@));
    out
}

/// The normal form of a path, or `None` for a path that is not a trusted
/// absolute path: `.` pieces are dropped, `..` removes the component before
/// it (never the root), and the result is written with the platform's
/// separator.
pub fn normalize_windows_path(path: &str, style: PathStyle) -> (r: Option<String>)
    ensures
        match r {
            Some(p) => normalize(path@, style) == Some(p@),
            None => normalize(path@, style) is None,
        },
{
    let s = chars_of(path);
    if !trusted_form_exec(&s, style) {
        return None;
    }
    let comps = normal_components_exec(&s, style);
    let sep = match style {
        PathStyle::Unix => '/',
        PathStyle::Windows => '\\',
    };
    let pl: usize = match style {
        PathStyle::Unix => 0,
        PathStyle::Windows => 2,
    };
    let mut root = slice(&s, 0, pl);
    root.push(sep);
    assert(root@ =~= root_text(s@, style));
    let body = join_exec(&comps, sep);
    let all = concat(&root, &body);
    Some(string_of(all.as_slice()))
}

/// The key two paths are compared by: `/` read as `\`, ASCII case folded.
pub fn path_key_chars(s: &Vec<char>) -> (r: Vec<char>)
    ensures
        r@ == path_key(s@),
{
    let mut out: Vec<char> = Vec::new();
    let mut i: usize = 0;
    let ghost m = s@.map_values(|c: char| if c == '/' { '\\' } else { c });
    while i < s.len()
        invariant
            i <= s.len(),
            m == s@.map_values(|c: char| if c == '/' { '\\' } else { c }),
            out@ == to_ascii_lowercase(m.take(i as int)),
        decreases s.len() - i,
    {
        let c = if s[i] == '/' {
            '\\'
        } else {
            s[i]
        };
        out.push(ascii_lower_exec(c));
        i += 1;
        assert(out@ =~= to_ascii_lowercase(m.take(i as int)));
    }
    assert(m.take(s.len() as int) =~= m);
    out
}

/// The key two paths are compared by: `/` read as `\`, ASCII case folded.
pub fn path_key_of(path: &str) -> (r: String)
    ensures
        r@ == path_key(path@),
{
    let k = path_key_chars(&chars_of(path));
    string_of(k.as_slice())
}

// ---------------------------------------------------------------------------
// Laws
// ---------------------------------------------------------------------------
/// A component that normalization keeps: not empty, not `.` or `..`, and
/// without separators.
pub open spec fn plain_component(c: Seq<char>, style: PathStyle) -> bool {
    &&& c.len() > 0
    &&& !is_dot(c)
    &&& !is_dot_dot(c)
    &&& forall|i: int| 0 <= i < c.len() ==> !is_sep(style, #[trigger] c[i])
}

proof fn lemma_split_pieces_no_sep(s: Seq<char>, c: char)
    ensures
        forall|k: int| 0 <= k < split(s, c).len() ==> !(#[trigger] split(s, c)[k]).contains(c),
    decreases s.len(),
{
    crate::text::lemma_find_char(s, c);
    match find_char(s, c) {
        Some(i) => {
            if 0 <= i < s.len() {
                lemma_split_pieces_no_sep(s.skip(i + 1), c);
                let rest = split(s.skip(i + 1), c);
                assert forall|k: int| 0 <= k < split(s, c).len() implies !(#[trigger] split(
                    s,
                    c,
                )[k]).contains(c) by {
                    if k == 0 {
                        if s.take(i).contains(c) {
                            let j = choose|j: int| 0 <= j < s.take(i).len() && s.take(i)[j] == c;
                            assert(s[j] == c);
                        }
                    } else {
                        assert(split(s, c)[k] == rest[k - 1]);
                    }
                }
            }
        },
        None => {
            if s.contains(c) {
                let j = choose|j: int| 0 <= j < s.len() && s[j] == c;
            }
        },
    }
}

proof fn lemma_resolve_keeps_plain(stack: Seq<Seq<char>>, ps: Seq<Seq<char>>, style: PathStyle)
    requires
        forall|k: int| 0 <= k < stack.len() ==> plain_component(#[trigger] stack[k], style),
        forall|k: int|
            0 <= k < ps.len() ==> forall|i: int|
                0 <= i < (#[trigger] ps[k]).len() ==> !is_sep(style, ps[k][i]),
    ensures
        forall|k: int|
            0 <= k < resolve_all(stack, ps).len() ==> plain_component(
                #[trigger] resolve_all(stack, ps)[k],
                style,
            ),
    decreases ps.len(),
{
    if ps.len() > 0 {
        let next = resolve(stack, ps[0]);
        assert forall|k: int| 0 <= k < next.len() implies plain_component(#[trigger] next[k], style) by {
            if k < stack.len() {
                if stack.len() > 0 && is_dot_dot(ps[0]) {
                    assert(next[k] == stack[k]);
                }
            } else {
                assert(next[k] == ps[0]);
                assert(forall|i: int| 0 <= i < ps[0].len() ==> !is_sep(style, ps[0][i]));
            }
        }
        let rest = ps.drop_first();
        assert forall|k: int| 0 <= k < rest.len() implies forall|i: int|
            0 <= i < (#[trigger] rest[k]).len() ==> !is_sep(style, rest[k][i]) by {
            assert(rest[k] == ps[k + 1]);
        }
        lemma_resolve_keeps_plain(next, rest, style);
        assert(resolve_all(stack, ps) == resolve_all(next, rest));
    }
}

/// The components of a normal form are plain.
pub proof fn lemma_normal_components_plain(s: Seq<char>, style: PathStyle)
    ensures
        forall|k: int|
            0 <= k < normal_components(s, style).len() ==> plain_component(
                #[trigger] normal_components(s, style)[k],
                style,
            ),
{
    let u = unify(s.skip(prefix_len(style)), style);
    lemma_split_pieces_no_sep(u, '/');
    let ps = pieces(s, style);
    assert forall|k: int| 0 <= k < ps.len() implies forall|i: int|
        0 <= i < (#[trigger] ps[k]).len() ==> !is_sep(style, ps[k][i]) by {
        assert forall|i: int| 0 <= i < ps[k].len() implies !is_sep(style, ps[k][i]) by {
            lemma_split_piece_in_source(u, '/', k, i);
            if is_sep(style, ps[k][i]) {
                assert(ps[k].contains('/')) by {
                    // a piece of `unify(..)` only holds characters of it, and
                    // `unify` writes every separator as `/`
                    let j = choose|j: int| 0 <= j < u.len() && u[j] == ps[k][i];
                    assert(u[j] != '/' ==> !is_sep(style, u[j]));
                }
            }
        }
    }
    lemma_resolve_keeps_plain(seq![], ps, style);
}

/// Every character of a piece of `split(s, c)` is a character of `s`.
proof fn lemma_split_piece_in_source(s: Seq<char>, c: char, k: int, i: int)
    requires
        0 <= k < split(s, c).len(),
        0 <= i < split(s, c)[k].len(),
    ensures
        exists|j: int| 0 <= j < s.len() && s[j] == split(s, c)[k][i],
    decreases s.len(),
{
    crate::text::lemma_find_char(s, c);
    match find_char(s, c) {
        Some(p) => {
            if 0 <= p < s.len() {
                if k == 0 {
                    assert(s[i] == s.take(p)[i]);
                } else {
                    lemma_split_piece_in_source(s.skip(p + 1), c, k - 1, i);
                    let j = choose|j: int|
                        0 <= j < s.skip(p + 1).len() && #[trigger] s.skip(p + 1)[j] == split(
                            s.skip(p + 1),
                            c,
                        )[k - 1][i];
                    assert(s[p + 1 + j] == s.skip(p + 1)[j]);
                }
            } else {
                assert(s[i] == split(s, c)[k][i]);
            }
        },
        None => {
            assert(s[i] == split(s, c)[k][i]);
        },
    }
}

pub(crate) proof fn lemma_split_no_sep(x: Seq<char>, c: char)
    requires
        !x.contains(c),
    ensures
        split(x, c) == seq![x],
{
    crate::text::lemma_find_char(x, c);
    if find_char(x, c) is Some {
        let i = find_char(x, c)->0;
        assert(x.contains(c)) by {
            assert(x[i] == c);
        }
    }
}

proof fn lemma_split_concat(x: Seq<char>, y: Seq<char>, c: char)
    ensures
        split(x + seq![c] + y, c) == split(x, c) + split(y, c),
    decreases x.len(),
{
    let s = x + seq![c] + y;
    crate::text::lemma_find_char(x, c);
    match find_char(x, c) {
        Some(i) => {
            assert(s[i] == c);
            crate::text::lemma_find_char_is(s, c, i);
            assert(s.take(i) =~= x.take(i));
            assert(s.skip(i + 1) =~= x.skip(i + 1) + seq![c] + y);
            lemma_split_concat(x.skip(i + 1), y, c);
            assert(split(s, c) =~= seq![x.take(i)] + (split(x.skip(i + 1), c) + split(y, c)));
            assert(split(x, c) == seq![x.take(i)] + split(x.skip(i + 1), c));
        },
        None => {
            let k = x.len() as int;
            assert(s[k] == c);
            assert forall|j: int| 0 <= j < k implies s[j] != c by {
                assert(s[j] == x[j]);
            }
            crate::text::lemma_find_char_is(s, c, k);
            assert(s.take(k) =~= x);
            assert(s.skip(k + 1) =~= y);
        },
    }
}

pub(crate) proof fn lemma_split_join(parts: Seq<Seq<char>>, c: char)
    requires
        parts.len() > 0,
        forall|k: int| 0 <= k < parts.len() ==> !(#[trigger] parts[k]).contains(c),
    ensures
        split(join(parts, c), c) == parts,
    decreases parts.len(),
{
    if parts.len() == 1 {
        lemma_split_no_sep(parts[0], c);
        assert(parts =~= seq![parts[0]]);
    } else {
        let init = parts.drop_last();
        assert forall|k: int| 0 <= k < init.len() implies !(#[trigger] init[k]).contains(c) by {
            assert(init[k] == parts[k]);
        }
        lemma_split_join(init, c);
        lemma_split_concat(join(init, c), parts.last(), c);
        lemma_split_no_sep(parts.last(), c);
        assert(parts =~= init + seq![parts.last()]);
    }
}

proof fn lemma_unify_concat(a: Seq<char>, b: Seq<char>, style: PathStyle)
    ensures
        unify(a + b, style) == unify(a, style) + unify(b, style),
{
    assert(unify(a + b, style) =~= unify(a, style) + unify(b, style));
}

proof fn lemma_unify_join(parts: Seq<Seq<char>>, style: PathStyle)
    requires
        forall|k: int| 0 <= k < parts.len() ==> plain_component(#[trigger] parts[k], style),
    ensures
        unify(join(parts, main_sep(style)), style) == join(parts, '/'),
    decreases parts.len(),
{
    if parts.len() == 0 {
        assert(unify(seq![], style) =~= Seq::<char>::empty());
    } else if parts.len() == 1 {
        let p = parts[0];
        assert(plain_component(p, style));
        assert(unify(p, style) =~= p);
    } else {
        let init = parts.drop_last();
        assert forall|k: int| 0 <= k < init.len() implies plain_component(#[trigger] init[k], style) by {
            assert(init[k] == parts[k]);
        }
        lemma_unify_join(init, style);
        let last = parts.last();
        assert(plain_component(last, style));
        lemma_unify_concat(join(init, main_sep(style)) + seq![main_sep(style)], last, style);
        lemma_unify_concat(join(init, main_sep(style)), seq![main_sep(style)], style);
        assert(unify(last, style) =~= last);
        assert(unify(seq![main_sep(style)], style) =~= seq!['/']);
    }
}

proof fn lemma_resolve_plain(stack: Seq<Seq<char>>, ps: Seq<Seq<char>>, style: PathStyle)
    requires
        forall|k: int| 0 <= k < ps.len() ==> plain_component(#[trigger] ps[k], style),
    ensures
        resolve_all(stack, ps) == stack + ps,
    decreases ps.len(),
{
    if ps.len() == 0 {
        assert(stack + ps =~= stack);
    } else {
        let rest = ps.drop_first();
        assert forall|k: int| 0 <= k < rest.len() implies plain_component(#[trigger] rest[k], style) by {
            assert(rest[k] == ps[k + 1]);
        }
        assert(plain_component(ps[0], style));
        lemma_resolve_plain(stack.push(ps[0]), rest, style);
        assert(stack.push(ps[0]) + rest =~= stack + ps);
    }
}

/// Normalizing is idempotent: a normal form is a trusted absolute path, and
/// its own normal form.
pub proof fn lemma_normalize_idempotent(s: Seq<char>, style: PathStyle)
    requires
        normalize(s, style) is Some,
    ensures
        trusted_form(normalize(s, style)->0, style),
        normalize(normalize(s, style)->0, style) == normalize(s, style),
        normal_components(normalize(s, style)->0, style) == normal_components(s, style),
{
    let comps = normal_components(s, style);
    let sep = main_sep(style);
    let n = root_text(s, style) + join(comps, sep);
    let pl = prefix_len(style);
    lemma_normal_components_plain(s, style);
    assert(n[pl] == sep);
    assert(n.take(pl) =~= s.take(pl));
    assert(trusted_form(n, style));
    // the pieces of the normal form: an empty one before the root, then the
    // components
    assert(n.skip(pl) =~= seq![sep] + join(comps, sep));
    lemma_unify_concat(seq![sep], join(comps, sep), style);
    assert(unify(seq![sep], style) =~= seq!['/']);
    lemma_unify_join(comps, style);
    let u = unify(n.skip(pl), style);
    assert(u =~= Seq::<char>::empty() + seq!['/'] + join(comps, '/'));
    lemma_split_concat(Seq::<char>::empty(), join(comps, '/'), '/');
    lemma_split_no_sep(Seq::<char>::empty(), '/');
    let ps = pieces(n, style);
    if comps.len() == 0 {
        assert(join(comps, '/') =~= Seq::<char>::empty());
        assert(ps =~= seq![Seq::<char>::empty(), Seq::<char>::empty()]);
        assert(resolve_all(seq![], ps) == resolve_all(seq![], ps.drop_first()));
        assert(ps.drop_first().drop_first() =~= Seq::<Seq<char>>::empty());
        assert(resolve_all(seq![], ps.drop_first()) == resolve_all(
            seq![],
            ps.drop_first().drop_first(),
        ));
        assert(normal_components(n, style) =~= comps);
    } else {
        assert forall|k: int| 0 <= k < comps.len() implies !(#[trigger] comps[k]).contains('/') by {
            assert(plain_component(comps[k], style));
            if comps[k].contains('/') {
                let j = choose|j: int| 0 <= j < comps[k].len() && comps[k][j] == '/';
                assert(is_sep(style, comps[k][j]));
            }
        }
        lemma_split_join(comps, '/');
        assert(ps =~= seq![Seq::<char>::empty()] + comps);
        assert(resolve_all(seq![], ps) == resolve_all(seq![], ps.drop_first()));
        assert(ps.drop_first() =~= comps);
        lemma_resolve_plain(seq![], comps, style);
        assert(Seq::<Seq<char>>::empty() + comps =~= comps);
    }
    assert(root_text(n, style) =~= root_text(s, style));
}

/// Every component that resolving keeps is one of the components it started
/// with or one of the pieces.
proof fn lemma_resolve_all_from(stack: Seq<Seq<char>>, ps: Seq<Seq<char>>)
    ensures
        forall|k: int|
            0 <= k < resolve_all(stack, ps).len() ==> stack.contains(
                #[trigger] resolve_all(stack, ps)[k],
            ) || ps.contains(resolve_all(stack, ps)[k]),
    decreases ps.len(),
{
    if ps.len() > 0 {
        let next = resolve(stack, ps[0]);
        let rest = ps.drop_first();
        lemma_resolve_all_from(next, rest);
        assert forall|k: int| 0 <= k < resolve_all(stack, ps).len() implies stack.contains(
            #[trigger] resolve_all(stack, ps)[k],
        ) || ps.contains(resolve_all(stack, ps)[k]) by {
            let x = resolve_all(stack, ps)[k];
            assert(resolve_all(stack, ps) == resolve_all(next, rest));
            if rest.contains(x) {
                let j = choose|j: int| 0 <= j < rest.len() && rest[j] == x;
                assert(ps[j + 1] == x);
            } else {
                assert(next.contains(x));
                let j = choose|j: int| 0 <= j < next.len() && next[j] == x;
                if j < stack.len() {
                    assert(stack[j] == x);
                } else {
                    assert(ps[0] == x);
                }
            }
        }
    }
}

/// What normalization gives. Exactly the trusted absolute paths have a
/// normal form. It keeps the path's prefix as written and puts the root
/// right after it. Its components are plain (none empty, `.` or `..`, none
/// holding a separator), each is a piece of the path as written (its letter
/// case kept), and they are the path's pieces with `.` dropped and each `..`
/// removing the component kept before it (nothing at the root). Read again,
/// the normal form has the same components.
pub proof fn lemma_normalize_shape(s: Seq<char>, style: PathStyle)
    ensures
        normalize(s, style) is Some <==> trusted_form(s, style),
        normalize(s, style) matches Some(q) ==> {
            &&& q.take(prefix_len(style)) == s.take(prefix_len(style))
            &&& q[prefix_len(style)] == main_sep(style)
            &&& q == root_text(s, style) + join(normal_components(s, style), main_sep(style))
            &&& normal_components(s, style) == resolve_all(seq![], pieces(s, style))
            &&& normal_components(q, style) == normal_components(s, style)
            &&& forall|k: int|
                0 <= k < normal_components(s, style).len() ==> plain_component(
                    #[trigger] normal_components(s, style)[k],
                    style,
                ) && pieces(s, style).contains(normal_components(s, style)[k])
        },
{
    if normalize(s, style) is Some {
        let q = normalize(s, style)->0;
        let pl = prefix_len(style);
        lemma_normalize_idempotent(s, style);
        lemma_normal_components_plain(s, style);
        lemma_resolve_all_from(seq![], pieces(s, style));
        assert(q.take(pl) =~= s.take(pl));
        assert(q[pl] == main_sep(style));
        let comps = normal_components(s, style);
        assert forall|k: int| 0 <= k < comps.len() implies plain_component(
            #[trigger] comps[k],
            style,
        ) && pieces(s, style).contains(comps[k]) by {
            assert(!Seq::<Seq<char>>::empty().contains(comps[k]));
        }
    }
}

/// Folding the key is idempotent.
pub proof fn lemma_path_key_idempotent(s: Seq<char>)
    ensures
        path_key(path_key(s)) == path_key(s),
{
    assert(path_key(path_key(s)) =~= path_key(s));
}

} // verus!
