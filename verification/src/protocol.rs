//! The protocol line as the probe script prints it, and the law that
//! reading the printed output gives back the result that was printed.
use vstd::prelude::*;

use crate::model::{opt_view, string_views, ProbeResult};
use crate::paths::{join, lemma_split_join, lemma_split_no_sep};
use crate::probe::{
    array_items, closes_string, has_result, json_marker, json_value_of, parsed_result, raw_value,
    result_payload, string_end_from, unescaped, unquote,
};
use crate::text::{
    find, find_char, is_ascii_alphanumeric, is_ws, lemma_find, lemma_find_char, lemma_find_char_is,
    lines, occurs_at, replace, split, starts_with, strip_cr, trim, trim_end_char, trim_start,
};

verus! {

// ---------------------------------------------------------------------------
// What the probe script prints
// ---------------------------------------------------------------------------
/// The fields of a JSON object, written as `json.dumps` writes them with the
/// separators `,` and `:`: each `"<key>":<value>`, commas between them.
pub open spec fn fields_text(fs: Seq<(Seq<char>, Seq<char>)>) -> Seq<char>
    decreases fs.len(),
{
    if fs.len() == 0 {
        seq![]
    } else if fs.len() == 1 {
        json_marker(fs[0].0) + fs[0].1
    } else {
        fields_text(fs.drop_last()) + seq![','] + json_marker(fs.last().0) + fs.last().1
    }
}

/// A JSON object of the fields `fs`.
pub open spec fn object_text(fs: Seq<(Seq<char>, Seq<char>)>) -> Seq<char> {
    seq!['{'] + fields_text(fs) + seq!['}']
}

/// Where the field `n` starts in `fields_text(fs)`.
pub open spec fn field_pos(fs: Seq<(Seq<char>, Seq<char>)>, n: int) -> int {
    if n == 0 {
        0
    } else {
        fields_text(fs.take(n)).len() as int + 1
    }
}

/// Keys that hold no `"` or `:`, values that hold no `:`, and no key twice.
pub open spec fn well_keyed(fs: Seq<(Seq<char>, Seq<char>)>) -> bool {
    &&& forall|n: int, i: int|
        0 <= n < fs.len() && 0 <= i < fs[n].0.len() ==> (#[trigger] fs[n].0[i]) != '"'
            && fs[n].0[i] != ':'
    &&& forall|n: int, i: int|
        0 <= n < fs.len() && 0 <= i < fs[n].1.len() ==> (#[trigger] fs[n].1[i]) != ':'
    &&& forall|n: int, m: int| 0 <= n < m < fs.len() ==> (#[trigger] fs[n].0) != (#[trigger] fs[m].0)
}

// ---------------------------------------------------------------------------
// Finding a key
// ---------------------------------------------------------------------------
/// An occurrence with none before it is what `find` gives.
proof fn lemma_find_is(s: Seq<char>, m: Seq<char>, k: int)
    requires
        occurs_at(s, m, k),
        forall|j: int| 0 <= j < k ==> !occurs_at(s, m, j),
    ensures
        find(s, m) == Some(k),
{
    lemma_find(s, m);
}

/// What text follows does not change the first occurrence.
proof fn lemma_find_prefix(a: Seq<char>, b: Seq<char>, m: Seq<char>)
    requires
        find(a, m) is Some,
    ensures
        find(a + b, m) == find(a, m),
{
    lemma_find(a, m);
    let k = find(a, m)->0;
    assert((a + b).subrange(k, k + m.len()) =~= a.subrange(k, k + m.len()));
    assert forall|j: int| 0 <= j < k implies !occurs_at(a + b, m, j) by {
        assert(!occurs_at(a, m, j));
        assert((a + b).subrange(j, j + m.len()) =~= a.subrange(j, j + m.len()));
    }
    lemma_find_is(a + b, m, k);
}

/// Two markers that end at one colon are the same marker.
proof fn lemma_marker_clash(t: Seq<char>, j: int, kn: Seq<char>, kp: Seq<char>, e: int)
    requires
        occurs_at(t, json_marker(kn), j),
        e == j + kn.len() + 2,
        e + 1 >= json_marker(kp).len(),
        t.subrange(e + 1 - json_marker(kp).len(), e + 1) == json_marker(kp),
        forall|i: int| 0 <= i < kn.len() ==> kn[i] != '"',
        forall|i: int| 0 <= i < kp.len() ==> kp[i] != '"',
    ensures
        kn == kp,
{
    let mn = json_marker(kn);
    let mp = json_marker(kp);
    let sp = e + 1 - mp.len();
    assert(t.subrange(j, j + mn.len()) == mn);
    if kn.len() < kp.len() {
        // the quote that opens `kn` stands inside `kp`
        let i = j - sp;
        assert(t[j] == mn[0]);
        assert(t[j] == mp[i]);
        assert(mp[i] == kp[i - 1]);
    } else if kn.len() > kp.len() {
        // the quote that opens `kp` stands inside `kn`
        let i = sp - j;
        assert(t[sp] == mp[0]);
        assert(t[sp] == mn[i]);
        assert(mn[i] == kn[i - 1]);
    } else {
        assert(sp == j);
        assert(kn =~= mn.subrange(1, kn.len() as int + 1));
        assert(kp =~= mp.subrange(1, kp.len() as int + 1));
    }
}

/// Every colon of the fields ends the marker of one of their keys.
proof fn lemma_colons(fs: Seq<(Seq<char>, Seq<char>)>, e: int)
    requires
        well_keyed(fs),
        0 <= e < fields_text(fs).len(),
        fields_text(fs)[e] == ':',
    ensures
        exists|n: int|
            0 <= n < fs.len() && e + 1 >= json_marker(#[trigger] fs[n].0).len()
                && fields_text(fs).subrange(e + 1 - json_marker(fs[n].0).len(), e + 1)
                == json_marker(fs[n].0),
    decreases fs.len(),
{
    let t = fields_text(fs);
    let last = fs.last();
    let m = json_marker(last.0);
    let init = fs.drop_last();
    let a = fields_text(init);
    let sep: Seq<char> = if fs.len() == 1 {
        seq![]
    } else {
        seq![',']
    };
    let base = a.len() as int + sep.len() as int;
    if fs.len() == 1 {
        assert(t == a + sep + m + last.1);
    } else {
        assert(t == a + sep + m + last.1);
    }
    if e < a.len() {
        assert(well_keyed(init)) by {
            assert forall|n: int, i: int| 0 <= n < init.len() && 0 <= i < init[n].0.len() implies (
            #[trigger] init[n].0[i]) != '"' && init[n].0[i] != ':' by {
                assert(init[n] == fs[n]);
            }
            assert forall|n: int, i: int| 0 <= n < init.len() && 0 <= i < init[n].1.len() implies (
            #[trigger] init[n].1[i]) != ':' by {
                assert(init[n] == fs[n]);
            }
            assert forall|n: int, q: int| 0 <= n < q < init.len() implies (#[trigger] init[n].0) != (
            #[trigger] init[q].0) by {
                assert(init[n] == fs[n] && init[q] == fs[q]);
            }
        }
        assert(a[e] == t[e]);
        lemma_colons(init, e);
        let n = choose|n: int|
            0 <= n < init.len() && e + 1 >= json_marker(#[trigger] init[n].0).len()
                && a.subrange(e + 1 - json_marker(init[n].0).len(), e + 1) == json_marker(
                init[n].0,
            );
        assert(init[n] == fs[n]);
        assert(t.subrange(e + 1 - json_marker(fs[n].0).len(), e + 1) =~= a.subrange(
            e + 1 - json_marker(init[n].0).len(),
            e + 1,
        ));
    } else if e < base {
        assert(t[e] == sep[e - a.len()]);
    } else if e < base + m.len() {
        let i = e - base;
        assert(t[e] == m[i]);
        if i < m.len() - 1 {
            if 1 <= i <= last.0.len() {
                assert(m[i] == last.0[i - 1]);
                assert(fs[fs.len() - 1].0[i - 1] != ':');
            }
        }
        assert(i == m.len() - 1);
        assert(t.subrange(e + 1 - m.len(), e + 1) =~= m);
        assert(fs[fs.len() - 1] == last);
    } else {
        let i = e - base - m.len();
        assert(t[e] == last.1[i]);
        assert(fs[fs.len() - 1].1[i] != ':');
    }
}

/// Where a field stands in the text of the fields, and what follows its
/// marker: its value, then a comma or the end of the fields.
pub proof fn lemma_find_field(fs: Seq<(Seq<char>, Seq<char>)>, n: int)
    requires
        well_keyed(fs),
        0 <= n < fs.len(),
    ensures
        find(fields_text(fs), json_marker(fs[n].0)) == Some(field_pos(fs, n)),
        ({
            let t = fields_text(fs);
            let at = field_pos(fs, n) + json_marker(fs[n].0).len();
            &&& at + fs[n].1.len() <= t.len()
            &&& t.subrange(at, at + fs[n].1.len()) == fs[n].1
            &&& n + 1 < fs.len() ==> at + fs[n].1.len() < t.len() && t[at + fs[n].1.len()] == ','
            &&& n + 1 == fs.len() ==> at + fs[n].1.len() == t.len()
        }),
    decreases fs.len(),
{
    let t = fields_text(fs);
    let last = fs.last();
    let m = json_marker(last.0);
    let init = fs.drop_last();
    let a = fields_text(init);
    let sep: Seq<char> = if fs.len() == 1 {
        seq![]
    } else {
        seq![',']
    };
    let base = a.len() as int + sep.len() as int;
    assert(t == a + sep + m + last.1);
    assert(well_keyed(init)) by {
        assert forall|q: int, i: int| 0 <= q < init.len() && 0 <= i < init[q].0.len() implies (
        #[trigger] init[q].0[i]) != '"' && init[q].0[i] != ':' by {
            assert(init[q] == fs[q]);
        }
        assert forall|q: int, i: int| 0 <= q < init.len() && 0 <= i < init[q].1.len() implies (
        #[trigger] init[q].1[i]) != ':' by {
            assert(init[q] == fs[q]);
        }
        assert forall|q: int, r: int| 0 <= q < r < init.len() implies (#[trigger] init[q].0) != (
        #[trigger] init[r].0) by {
            assert(init[q] == fs[q] && init[r] == fs[r]);
        }
    }
    if n < fs.len() - 1 {
        assert(init[n] == fs[n]);
        lemma_find_field(init, n);
        assert(init.take(n) =~= fs.take(n));
        assert(field_pos(init, n) == field_pos(fs, n));
        lemma_find_prefix(a, sep + m + last.1, json_marker(fs[n].0));
        assert(t == a + (sep + m + last.1));
        let at = field_pos(fs, n) + json_marker(fs[n].0).len();
        assert(t.subrange(at, at + fs[n].1.len()) =~= a.subrange(at, at + fs[n].1.len()));
        if n + 1 < init.len() {
            assert(t[at + fs[n].1.len()] == a[at + fs[n].1.len()]);
        } else {
            assert(t[at + fs[n].1.len()] == sep[0]);
        }
    } else {
        assert(fs[n] == last);
        assert(fs.take(n) =~= init);
        assert(field_pos(fs, n) == base);
        assert(t.subrange(base, base + m.len()) =~= m);
        assert forall|j: int| 0 <= j < base implies !occurs_at(t, m, j) by {
            if occurs_at(t, m, j) {
                let e = j + last.0.len() + 2;
                assert(t.subrange(j, j + m.len()) == m);
                assert(t[e] == t.subrange(j, j + m.len())[last.0.len() as int + 2]);
                assert(t[e] == ':');
                assert(e < base);
                assert(e < a.len()) by {
                    if e >= a.len() {
                        assert(t[e] == sep[e - a.len()]);
                    }
                }
                assert(a[e] == t[e]);
                lemma_colons(init, e);
                let p = choose|p: int|
                    0 <= p < init.len() && e + 1 >= json_marker(#[trigger] init[p].0).len()
                        && a.subrange(e + 1 - json_marker(init[p].0).len(), e + 1) == json_marker(
                        init[p].0,
                    );
                assert(t.subrange(e + 1 - json_marker(init[p].0).len(), e + 1) =~= a.subrange(
                    e + 1 - json_marker(init[p].0).len(),
                    e + 1,
                ));
                assert(init[p] == fs[p]);
                assert forall|i: int| 0 <= i < last.0.len() implies last.0[i] != '"' by {
                    assert(fs[fs.len() - 1].0[i] != '"');
                }
                assert forall|i: int| 0 <= i < fs[p].0.len() implies fs[p].0[i] != '"' by {
                    assert(fs[p].0[i] != '"');
                }
                lemma_marker_clash(t, j, last.0, fs[p].0, e);
                assert(fs[p].0 != fs[fs.len() - 1].0);
            }
        }
        lemma_find_is(t, m, base);
        let at = base + m.len();
        assert(t.subrange(at, at + last.1.len()) =~= last.1);
    }
}

/// Where a field stands in the text of an object, and what follows its
/// marker.
pub proof fn lemma_find_object_field(fs: Seq<(Seq<char>, Seq<char>)>, n: int)
    requires
        well_keyed(fs),
        0 <= n < fs.len(),
    ensures
        find(object_text(fs), json_marker(fs[n].0)) == Some(field_pos(fs, n) + 1),
        ({
            let s = object_text(fs);
            let at = field_pos(fs, n) + 1 + json_marker(fs[n].0).len();
            &&& at + fs[n].1.len() < s.len()
            &&& s.subrange(at, at + fs[n].1.len()) == fs[n].1
            &&& s[at + fs[n].1.len()] == if n + 1 < fs.len() {
                ','
            } else {
                '}'
            }
        }),
{
    let t = fields_text(fs);
    let m = json_marker(fs[n].0);
    let k = field_pos(fs, n);
    lemma_find_field(fs, n);
    lemma_find(t, m);
    let h = seq!['{'] + t;
    assert(h.subrange(k + 1, k + 1 + m.len()) =~= t.subrange(k, k + m.len()));
    assert forall|j: int| 0 <= j < k + 1 implies !occurs_at(h, m, j) by {
        if j == 0 {
            if occurs_at(h, m, 0) {
                assert(h.subrange(0, m.len() as int) == m);
                assert(h.subrange(0, m.len() as int)[0] == h[0]);
                assert(m[0] == '"');
            }
        } else {
            assert(!occurs_at(t, m, j - 1));
            assert(h.subrange(j, j + m.len()) =~= t.subrange(j - 1, j - 1 + m.len()));
        }
    }
    lemma_find_is(h, m, k + 1);
    lemma_find_prefix(h, seq!['}'], m);
    assert(object_text(fs) == h + seq!['}']);
    let s = object_text(fs);
    let at = k + 1 + m.len();
    assert(s.subrange(at, at + fs[n].1.len()) =~= t.subrange(at - 1, at - 1 + fs[n].1.len()));
    if n + 1 < fs.len() {
        assert(s[at + fs[n].1.len()] == t[at - 1 + fs[n].1.len()]);
    } else {
        assert(s[at + fs[n].1.len()] == '}');
    }
}

// ---------------------------------------------------------------------------
// Reading a value back
// ---------------------------------------------------------------------------
/// A character that a printed string holds as it is: an ASCII letter or
/// digit, `-`, `_` or `.`.
pub open spec fn is_plain_char(c: char) -> bool {
    is_ascii_alphanumeric(c) || c == '-' || c == '_' || c == '.'
}

/// A string made of plain characters only, which JSON writes without
/// escapes.
pub open spec fn is_plain(s: Seq<char>) -> bool {
    forall|i: int| 0 <= i < s.len() ==> is_plain_char(#[trigger] s[i])
}

/// A string written as JSON: between double quotes.
pub open spec fn quoted(s: Seq<char>) -> Seq<char> {
    seq!['"'] + s + seq!['"']
}

/// A boolean written as JSON.
pub open spec fn bool_text(b: bool) -> Seq<char> {
    if b {
        "true"@
    } else {
        "false"@
    }
}

/// An optional string written as JSON: `null` for none.
pub open spec fn name_text(o: Option<Seq<char>>) -> Seq<char> {
    match o {
        Some(s) => quoted(s),
        None => "null"@,
    }
}

/// A list of strings written as JSON.
pub open spec fn list_text(xs: Seq<Seq<char>>) -> Seq<char> {
    seq!['['] + join(xs.map_values(|x: Seq<char>| quoted(x)), ',') + seq![']']
}

proof fn lemma_trim_plain(v: Seq<char>)
    requires
        v.len() == 0 || (!is_ws(v[0]) && !is_ws(v.last())),
    ensures
        trim(v) == v,
{
    if v.len() > 0 {
        assert(trim_start(v) == v);
    }
}

/// Every character of a join is the separator or a character of a part.
proof fn lemma_join_chars(parts: Seq<Seq<char>>, sep: char, pred: spec_fn(char) -> bool)
    requires
        pred(sep),
        forall|k: int, i: int|
            0 <= k < parts.len() && 0 <= i < parts[k].len() ==> pred(#[trigger] parts[k][i]),
    ensures
        forall|i: int| 0 <= i < join(parts, sep).len() ==> pred(#[trigger] join(parts, sep)[i]),
    decreases parts.len(),
{
    if parts.len() > 1 {
        let init = parts.drop_last();
        assert forall|k: int, i: int| 0 <= k < init.len() && 0 <= i < init[k].len() implies pred(
            #[trigger] init[k][i],
        ) by {
            assert(init[k] == parts[k]);
        }
        lemma_join_chars(init, sep, pred);
        let j = join(parts, sep);
        let a = join(init, sep);
        assert forall|i: int| 0 <= i < j.len() implies pred(#[trigger] j[i]) by {
            if i < a.len() {
                assert(j[i] == a[i]);
            } else if i == a.len() {
                assert(j[i] == sep);
            } else {
                assert(j[i] == parts.last()[i - a.len() - 1]);
                assert(parts[parts.len() - 1] == parts.last());
            }
        }
    } else if parts.len() == 1 {
        assert forall|i: int| 0 <= i < join(parts, sep).len() implies pred(
            #[trigger] join(parts, sep)[i],
        ) by {
            assert(join(parts, sep)[i] == parts[0][i]);
        }
    }
}

/// A scalar value (a boolean or `null`) followed by a comma reads back as
/// itself.
proof fn lemma_raw_scalar(rest: Seq<char>, v: Seq<char>)
    requires
        v.len() > 0,
        !is_ws(v[0]) && v[0] != '"' && v[0] != '[',
        !is_ws(v.last()) && v.last() != '}',
        forall|i: int| 0 <= i < v.len() ==> v[i] != ',',
        rest.len() > v.len(),
        rest.take(v.len() as int) == v,
        rest[v.len() as int] == ',',
    ensures
        raw_value(trim_start(rest)) == Some(v),
{
    assert(rest[0] == v[0]);
    assert(trim_start(rest) == rest);
    assert forall|j: int| 0 <= j < v.len() implies rest[j] != ',' by {
        assert(rest[j] == rest.take(v.len() as int)[j]);
    }
    lemma_find_char_is(rest, ',', v.len() as int);
    assert(trim_end_char(v, '}') == v);
    lemma_trim_plain(v);
}

/// The closing quote of a printed plain string is where the string ends.
proof fn lemma_string_end(rest: Seq<char>, x: Seq<char>, k: int)
    requires
        is_plain(x),
        rest.len() >= x.len() + 2,
        rest.take(x.len() as int + 2) == quoted(x),
        1 <= k <= x.len() + 1,
    ensures
        string_end_from(rest, k) == Some(x.len() as int + 1),
    decreases x.len() + 1 - k,
{
    let q = quoted(x);
    if k <= x.len() {
        assert(rest[k] == q[k]);
        assert(q[k] == x[k - 1]);
        assert(is_plain_char(x[k - 1]));
        lemma_string_end(rest, x, k + 1);
    } else {
        assert(rest[k] == q[k]);
        if k > 1 {
            assert(rest[k - 1] == q[k - 1]);
            assert(q[k - 1] == x[k - 2]);
            assert(is_plain_char(x[k - 2]));
        }
        assert(closes_string(rest, k));
    }
}

/// A printed plain string reads back as itself.
proof fn lemma_raw_quoted(rest: Seq<char>, x: Seq<char>)
    requires
        is_plain(x),
        rest.len() >= x.len() + 2,
        rest.take(x.len() as int + 2) == quoted(x),
    ensures
        raw_value(trim_start(rest)) == Some(quoted(x)),
{
    assert(rest[0] == quoted(x)[0]);
    assert(trim_start(rest) == rest);
    lemma_string_end(rest, x, 1);
}

/// A plain string holds no backslash, so undoing escapes leaves it as it is.
proof fn lemma_unescaped_plain(x: Seq<char>)
    requires
        is_plain(x),
    ensures
        unescaped(x) == x,
{
    lemma_replace_absent(x, seq!['\\', '"'], seq!['"']);
    lemma_replace_absent(x, seq!['\\', '\\'], seq!['\\']);
}

proof fn lemma_replace_absent(s: Seq<char>, pat: Seq<char>, rep: Seq<char>)
    requires
        pat.len() > 0,
        pat[0] == '\\',
        is_plain(s),
    ensures
        replace(s, pat, rep) == s,
    decreases s.len(),
{
    if s.len() > 0 {
        assert(is_plain_char(s[0]));
        if starts_with(s, pat) {
            assert(s.take(pat.len() as int)[0] == s[0]);
        }
        assert forall|i: int| 0 <= i < s.drop_first().len() implies is_plain_char(
            #[trigger] s.drop_first()[i],
        ) by {
            assert(s.drop_first()[i] == s[i + 1]);
        }
        lemma_replace_absent(s.drop_first(), pat, rep);
        assert(seq![s[0]] + s.drop_first() =~= s);
    }
}

/// A printed list of plain strings reads back up to its closing bracket.
proof fn lemma_raw_list(rest: Seq<char>, xs: Seq<Seq<char>>)
    requires
        forall|k: int| 0 <= k < xs.len() ==> is_plain(#[trigger] xs[k]),
        rest.len() >= list_text(xs).len(),
        rest.take(list_text(xs).len() as int) == list_text(xs),
    ensures
        raw_value(trim_start(rest)) == Some(list_text(xs)),
{
    let l = list_text(xs);
    let qs = xs.map_values(|x: Seq<char>| quoted(x));
    let body = join(qs, ',');
    assert(rest[0] == l[0]);
    assert(trim_start(rest) == rest);
    let pred = |c: char| c != ']';
    assert forall|k: int, i: int| 0 <= k < qs.len() && 0 <= i < qs[k].len() implies pred(
        #[trigger] qs[k][i],
    ) by {
        assert(qs[k] == quoted(xs[k]));
        if 1 <= i < qs[k].len() - 1 {
            assert(qs[k][i] == xs[k][i - 1]);
            assert(is_plain_char(xs[k][i - 1]));
        }
    }
    lemma_join_chars(qs, ',', pred);
    let e = l.len() - 1;
    assert forall|j: int| 0 <= j < e implies rest[j] != ']' by {
        assert(rest[j] == l[j]);
        if j > 0 {
            assert(l[j] == body[j - 1]);
            assert(pred(body[j - 1]));
        }
    }
    assert(rest[e] == l[e]);
    lemma_find_char_is(rest, ']', e);
    assert(rest.take(e + 1) =~= l);
}

/// The items of a printed list of plain strings are the strings.
proof fn lemma_list_items(xs: Seq<Seq<char>>)
    requires
        forall|k: int| 0 <= k < xs.len() ==> is_plain(#[trigger] xs[k]),
    ensures
        ({
            let l = list_text(xs);
            &&& l.len() >= 2 && l[0] == '[' && l.last() == ']'
            &&& array_items(split(l.subrange(1, l.len() - 1), ',')) == xs
        }),
{
    let l = list_text(xs);
    let qs = xs.map_values(|x: Seq<char>| quoted(x));
    let body = join(qs, ',');
    assert(l.subrange(1, l.len() - 1) =~= body);
    if xs.len() == 0 {
        assert(body =~= Seq::<char>::empty());
        lemma_split_no_sep(body, ',');
        assert(trim(seq![]) =~= Seq::<char>::empty());
        let ps = split(body, ',');
        assert(ps.drop_last() =~= Seq::<Seq<char>>::empty());
        assert(ps.last() =~= Seq::<char>::empty());
        assert(unquote(trim(ps.last())) is None);
        assert(array_items(ps.drop_last()) =~= Seq::<Seq<char>>::empty());
        assert(array_items(ps) == array_items(ps.drop_last()));
        assert(array_items(ps) =~= xs);
    } else {
        assert forall|k: int| 0 <= k < qs.len() implies !(#[trigger] qs[k]).contains(',') by {
            if qs[k].contains(',') {
                let i = choose|i: int| 0 <= i < qs[k].len() && qs[k][i] == ',';
                assert(qs[k] == quoted(xs[k]));
                assert(qs[k][i] == xs[k][i - 1]);
                assert(is_plain_char(xs[k][i - 1]));
            }
        }
        lemma_split_join(qs, ',');
        lemma_items_of_quoted(xs);
    }
}

proof fn lemma_items_of_quoted(xs: Seq<Seq<char>>)
    requires
        forall|k: int| 0 <= k < xs.len() ==> is_plain(#[trigger] xs[k]),
    ensures
        array_items(xs.map_values(|x: Seq<char>| quoted(x))) == xs,
    decreases xs.len(),
{
    let qs = xs.map_values(|x: Seq<char>| quoted(x));
    if xs.len() > 0 {
        let init = xs.drop_last();
        assert forall|k: int| 0 <= k < init.len() implies is_plain(#[trigger] init[k]) by {
            assert(init[k] == xs[k]);
        }
        lemma_items_of_quoted(init);
        assert(qs.drop_last() =~= init.map_values(|x: Seq<char>| quoted(x)));
        let x = xs.last();
        assert(qs.last() == quoted(x));
        assert(is_plain(xs[xs.len() - 1]));
        lemma_trim_plain(quoted(x));
        assert(unquote(quoted(x)) == Some(x)) by {
            assert(quoted(x).subrange(1, quoted(x).len() - 1) =~= x);
        }
        lemma_unescaped_plain(x);
        assert(init.push(x) =~= xs);
    } else {
        assert(qs =~= Seq::<Seq<char>>::empty());
    }
}

// ---------------------------------------------------------------------------
// The printed output
// ---------------------------------------------------------------------------
/// Lines after text that ends with a line break: a further line adds one.
proof fn lemma_lines_append(before: Seq<char>, l: Seq<char>)
    requires
        before.len() == 0 || before.last() == '\n',
        forall|i: int| 0 <= i < l.len() ==> l[i] != '\n',
        l.len() == 0 || l.last() != '\r',
    ensures
        lines(before + l + seq!['\n']) == lines(before) + seq![l],
    decreases before.len(),
{
    let t = before + l + seq!['\n'];
    if before.len() == 0 {
        assert(t =~= l + seq!['\n']);
        assert forall|j: int| 0 <= j < l.len() implies t[j] != '\n' by {
            assert(t[j] == l[j]);
        }
        lemma_find_char_is(t, '\n', l.len() as int);
        assert(t.take(l.len() as int) =~= l);
        assert(t.skip(l.len() as int + 1) =~= Seq::<char>::empty());
        assert(lines(before) =~= Seq::<Seq<char>>::empty());
        let rest = t.skip(l.len() as int + 1);
        assert(lines(rest) == Seq::<Seq<char>>::empty());
        assert(strip_cr(l) == l);
        assert(lines(t) == seq![strip_cr(t.take(l.len() as int))] + lines(rest));
        assert(lines(t) =~= seq![l]);
    } else {
        lemma_find_char(before, '\n');
        let i = find_char(before, '\n')->0;
        assert(before[before.len() - 1] == '\n');
        assert(find_char(before, '\n') is Some);
        assert forall|j: int| 0 <= j < i implies t[j] != '\n' by {
            assert(t[j] == before[j]);
        }
        assert(t[i] == before[i]);
        lemma_find_char_is(t, '\n', i);
        let rest = before.skip(i + 1);
        if rest.len() > 0 {
            assert(rest.last() == before.last());
        }
        lemma_lines_append(rest, l);
        assert(t.take(i) =~= before.take(i));
        assert(t.skip(i + 1) =~= rest + l + seq!['\n']);
        assert(lines(t) =~= seq![strip_cr(before.take(i))] + (lines(rest) + seq![l]));
    }
}

/// The payload is read from the first line that carries the marker.
proof fn lemma_payload_append(ls: Seq<Seq<char>>, line: Seq<char>)
    requires
        result_payload(ls) is None,
        starts_with(line, "ENVFIND_RESULT="@),
    ensures
        result_payload(ls + seq![line]) == Some(line.skip("ENVFIND_RESULT="@.len() as int)),
    decreases ls.len(),
{
    let all = ls + seq![line];
    if ls.len() == 0 {
        assert(all =~= seq![line]);
    } else {
        assert(all[0] == ls[0]);
        assert(all.drop_first() =~= ls.drop_first() + seq![line]);
        lemma_payload_append(ls.drop_first(), line);
    }
}

/// A character that a printed value may hold.
pub open spec fn is_value_char(c: char) -> bool {
    is_plain_char(c) || c == '"' || c == ',' || c == '[' || c == ']'
}

/// The fields of a probe result in the order the probe script prints them.
pub open spec fn result_fields(r: ProbeResult) -> Seq<(Seq<char>, Seq<char>)> {
    seq![
        ("import_match"@, bool_text(r.import_match)),
        ("distribution_match"@, bool_text(r.distribution_match)),
        ("import_name"@, name_text(opt_view(r.import_name))),
        ("distribution_name"@, name_text(opt_view(r.distribution_name))),
        ("providers"@, list_text(string_views(r.providers@))),
        ("top_level_imports"@, list_text(string_views(r.top_level_imports@))),
    ]
}

/// The JSON object the probe script prints for `r`.
pub open spec fn printed_result(r: ProbeResult) -> Seq<char> {
    object_text(result_fields(r))
}

/// A result whose strings JSON writes without escapes.
pub open spec fn printable(r: ProbeResult) -> bool {
    &&& (r.import_name matches Some(s) ==> is_plain(s@))
    &&& (r.distribution_name matches Some(s) ==> is_plain(s@))
    &&& forall|k: int|
        0 <= k < r.providers@.len() ==> is_plain(#[trigger] string_views(r.providers@)[k])
    &&& forall|k: int|
        0 <= k < r.top_level_imports@.len() ==> is_plain(
            #[trigger] string_views(r.top_level_imports@)[k],
        )
}

/// A probe's whole output: whatever it printed before (whole lines, none
/// carrying the marker), then the protocol line for `r`.
pub open spec fn printed_output(before: Seq<char>, r: ProbeResult) -> Seq<char> {
    before + "ENVFIND_RESULT="@ + printed_result(r) + seq!['\n']
}

proof fn lemma_list_chars(xs: Seq<Seq<char>>)
    requires
        forall|k: int| 0 <= k < xs.len() ==> is_plain(#[trigger] xs[k]),
    ensures
        forall|i: int| 0 <= i < list_text(xs).len() ==> is_value_char(#[trigger] list_text(xs)[i]),
{
    let qs = xs.map_values(|x: Seq<char>| quoted(x));
    let pred = |c: char| is_value_char(c);
    assert forall|k: int, i: int| 0 <= k < qs.len() && 0 <= i < qs[k].len() implies pred(
        #[trigger] qs[k][i],
    ) by {
        assert(qs[k] == quoted(xs[k]));
        if 1 <= i < qs[k].len() - 1 {
            assert(qs[k][i] == xs[k][i - 1]);
            assert(is_plain_char(xs[k][i - 1]));
        }
    }
    lemma_join_chars(qs, ',', pred);
    let b = join(qs, ',');
    assert forall|i: int| 0 <= i < list_text(xs).len() implies is_value_char(
        #[trigger] list_text(xs)[i],
    ) by {
        if 0 < i < list_text(xs).len() - 1 {
            assert(list_text(xs)[i] == b[i - 1]);
            assert(pred(b[i - 1]));
        }
    }
}

proof fn lemma_name_chars(o: Option<Seq<char>>)
    requires
        o matches Some(s) ==> is_plain(s),
    ensures
        forall|i: int| 0 <= i < name_text(o).len() ==> is_value_char(#[trigger] name_text(o)[i]),
{
    reveal_strlit("null");
    match o {
        Some(s) => {
            assert forall|i: int| 0 <= i < name_text(o).len() implies is_value_char(
                #[trigger] name_text(o)[i],
            ) by {
                if 1 <= i < name_text(o).len() - 1 {
                    assert(name_text(o)[i] == s[i - 1]);
                }
            }
        },
        None => {},
    }
}

/// Every character of the fields is a key or value character, `"`, `:` or
/// `,`.
proof fn lemma_fields_chars(fs: Seq<(Seq<char>, Seq<char>)>, pred: spec_fn(char) -> bool)
    requires
        pred('"') && pred(':') && pred(','),
        forall|n: int, i: int| 0 <= n < fs.len() && 0 <= i < fs[n].0.len() ==> pred(#[trigger] fs[n].0[i]),
        forall|n: int, i: int| 0 <= n < fs.len() && 0 <= i < fs[n].1.len() ==> pred(#[trigger] fs[n].1[i]),
    ensures
        forall|i: int| 0 <= i < fields_text(fs).len() ==> pred(#[trigger] fields_text(fs)[i]),
    decreases fs.len(),
{
    if fs.len() > 0 {
        let init = fs.drop_last();
        assert forall|n: int, i: int| 0 <= n < init.len() && 0 <= i < init[n].0.len() implies pred(
            #[trigger] init[n].0[i],
        ) by {
            assert(init[n] == fs[n]);
        }
        assert forall|n: int, i: int| 0 <= n < init.len() && 0 <= i < init[n].1.len() implies pred(
            #[trigger] init[n].1[i],
        ) by {
            assert(init[n] == fs[n]);
        }
        lemma_fields_chars(init, pred);
        let last = fs.last();
        let m = json_marker(last.0);
        let a = fields_text(init);
        let sep: Seq<char> = if fs.len() == 1 {
            seq![]
        } else {
            seq![',']
        };
        let t = fields_text(fs);
        assert(t == a + sep + m + last.1);
        assert(fs[fs.len() - 1] == last);
        assert forall|i: int| 0 <= i < t.len() implies pred(#[trigger] t[i]) by {
            let base = a.len() + sep.len();
            if i < a.len() {
                assert(t[i] == a[i]);
            } else if i < base {
                assert(t[i] == ',');
            } else if i < base + m.len() {
                let k = i - base;
                assert(t[i] == m[k]);
                if 1 <= k <= last.0.len() {
                    assert(m[k] == last.0[k - 1]);
                }
            } else {
                assert(t[i] == last.1[i - base - m.len()]);
            }
        }
    }
}

/// The fields the probe script prints are well keyed, and all of them are
/// written with key characters, value characters, `"` and `:`.
proof fn lemma_result_fields(r: ProbeResult)
    requires
        printable(r),
    ensures
        well_keyed(result_fields(r)),
        forall|n: int, i: int|
            0 <= n < 6 && 0 <= i < result_fields(r)[n].1.len() ==> is_value_char(
                #[trigger] result_fields(r)[n].1[i],
            ),
        forall|n: int, i: int|
            0 <= n < 6 && 0 <= i < result_fields(r)[n].0.len() ==> is_plain_char(
                #[trigger] result_fields(r)[n].0[i],
            ),
        result_fields(r).len() == 6,
{
    reveal_strlit("import_match");
    reveal_strlit("distribution_match");
    reveal_strlit("import_name");
    reveal_strlit("distribution_name");
    reveal_strlit("providers");
    reveal_strlit("top_level_imports");
    reveal_strlit("true");
    reveal_strlit("false");
    let fs = result_fields(r);
    let ps = string_views(r.providers@);
    let ts = string_views(r.top_level_imports@);
    assert forall|k: int| 0 <= k < ps.len() implies is_plain(#[trigger] ps[k]) by {}
    assert forall|k: int| 0 <= k < ts.len() implies is_plain(#[trigger] ts[k]) by {}
    lemma_list_chars(ps);
    lemma_list_chars(ts);
    lemma_name_chars(opt_view(r.import_name));
    lemma_name_chars(opt_view(r.distribution_name));
    assert forall|n: int, i: int| 0 <= n < 6 && 0 <= i < fs[n].1.len() implies is_value_char(
        #[trigger] fs[n].1[i],
    ) by {}
    assert forall|n: int, i: int| 0 <= n < 6 && 0 <= i < fs[n].0.len() implies is_plain_char(
        #[trigger] fs[n].0[i],
    ) by {}
    assert forall|n: int, m: int| 0 <= n < m < fs.len() implies (#[trigger] fs[n].0) != (
    #[trigger] fs[m].0) by {
        if fs[n].0 == fs[m].0 {
            assert(fs[n].0.len() == fs[m].0.len());
            assert(fs[n].0[0] == fs[m].0[0]);
        }
    }
}

/// The protocol line is the payload of the printed output.
proof fn lemma_output_payload(before: Seq<char>, r: ProbeResult)
    requires
        printable(r),
        before.len() == 0 || before.last() == '\n',
        result_payload(lines(before)) is None,
    ensures
        result_payload(lines(printed_output(before, r))) == Some(printed_result(r)),
{
    reveal_strlit("ENVFIND_RESULT=");
    let fs = result_fields(r);
    let j = printed_result(r);
    let p = "ENVFIND_RESULT="@;
    let l = p + j;
    lemma_result_fields(r);
    let no_nl = |c: char| c != '\n';
    lemma_fields_chars(fs, no_nl);
    assert forall|i: int| 0 <= i < l.len() implies l[i] != '\n' by {
        if i >= p.len() {
            let k = i - p.len();
            assert(l[i] == j[k]);
            if 0 < k < j.len() - 1 {
                assert(j[k] == fields_text(fs)[k - 1]);
                assert(no_nl(fields_text(fs)[k - 1]));
            }
        }
    }
    assert(l.last() == '}');
    lemma_lines_append(before, l);
    assert(printed_output(before, r) =~= before + l + seq!['\n']);
    assert(l.take(p.len() as int) =~= p);
    lemma_payload_append(lines(before), l);
    assert(l.skip(p.len() as int) =~= j);
}

/// The raw value of each field of the printed object is what was printed.
proof fn lemma_printed_values(r: ProbeResult)
    requires
        printable(r),
    ensures
        forall|n: int|
            0 <= n < 6 ==> #[trigger] json_value_of(printed_result(r), result_fields(r)[n].0)
                == Some(result_fields(r)[n].1),
{
    reveal_strlit("true");
    reveal_strlit("false");
    reveal_strlit("null");
    let fs = result_fields(r);
    let j = printed_result(r);
    lemma_result_fields(r);
    assert forall|n: int| 0 <= n < 6 implies #[trigger] json_value_of(j, fs[n].0) == raw_value(
        trim_start(j.skip(field_pos(fs, n) + 1 + json_marker(fs[n].0).len())),
    ) by {
        lemma_find_object_field(fs, n);
    }
    lemma_scalar_field(fs, 0, j);
    lemma_scalar_field(fs, 1, j);
    match r.import_name {
        Some(s) => lemma_quoted_field(fs, 2, j, s@),
        None => lemma_scalar_field(fs, 2, j),
    }
    match r.distribution_name {
        Some(s) => lemma_quoted_field(fs, 3, j, s@),
        None => lemma_scalar_field(fs, 3, j),
    }
    lemma_list_field(fs, 4, j, string_views(r.providers@));
    lemma_list_field(fs, 5, j, string_views(r.top_level_imports@));
}

/// A printed optional name reads back as the name.
proof fn lemma_name_reads_back(o: Option<Seq<char>>)
    requires
        o matches Some(s) ==> is_plain(s),
    ensures
        (if name_text(o) == "null"@ {
            None
        } else {
            match unquote(name_text(o)) {
                Some(u) => Some(unescaped(u)),
                None => None,
            }
        }) == o,
{
    reveal_strlit("null");
    match o {
        Some(s) => {
            lemma_unescaped_plain(s);
            assert(quoted(s).subrange(1, quoted(s).len() - 1) =~= s);
            assert(quoted(s)[0] != "null"@[0]);
        },
        None => {},
    }
}

/// What reading a probe's output gives back: a probe that printed the
/// protocol line for `r` (its strings written without escapes), after any
/// whole lines that do not carry the marker, is read as having a result,
/// and the result read is `r`: the same booleans, names, providers and
/// top-level imports.
pub proof fn lemma_parse_result_round_trip(before: Seq<char>, r: ProbeResult)
    requires
        printable(r),
        before.len() == 0 || before.last() == '\n',
        result_payload(lines(before)) is None,
    ensures
        has_result(printed_output(before, r)),
        parsed_result(printed_output(before, r), r),
{
    reveal_strlit("import_match");
    reveal_strlit("distribution_match");
    reveal_strlit("import_name");
    reveal_strlit("distribution_name");
    reveal_strlit("providers");
    reveal_strlit("top_level_imports");
    reveal_strlit("true");
    reveal_strlit("false");
    let fs = result_fields(r);
    let j = printed_result(r);
    lemma_output_payload(before, r);
    lemma_printed_values(r);
    assert(json_value_of(j, fs[0].0) == Some(fs[0].1));
    assert(json_value_of(j, fs[1].0) == Some(fs[1].1));
    assert(json_value_of(j, fs[2].0) == Some(fs[2].1));
    assert(json_value_of(j, fs[3].0) == Some(fs[3].1));
    assert(json_value_of(j, fs[4].0) == Some(fs[4].1));
    assert(json_value_of(j, fs[5].0) == Some(fs[5].1));
    lemma_name_reads_back(opt_view(r.import_name));
    lemma_name_reads_back(opt_view(r.distribution_name));
    let ps = string_views(r.providers@);
    let ts = string_views(r.top_level_imports@);
    assert forall|k: int| 0 <= k < ps.len() implies is_plain(#[trigger] ps[k]) by {}
    assert forall|k: int| 0 <= k < ts.len() implies is_plain(#[trigger] ts[k]) by {}
    lemma_list_items(ps);
    lemma_list_items(ts);
    assert("false"@.len() != "true"@.len());
}

/// A field whose value is a scalar (a boolean or `null`) reads back as it
/// was printed.
proof fn lemma_scalar_field(fs: Seq<(Seq<char>, Seq<char>)>, n: int, j: Seq<char>)
    requires
        well_keyed(fs),
        0 <= n < fs.len() - 1,
        j == object_text(fs),
        fs[n].1 == "true"@ || fs[n].1 == "false"@ || fs[n].1 == "null"@,
    ensures
        raw_value(trim_start(j.skip(field_pos(fs, n) + 1 + json_marker(fs[n].0).len()))) == Some(
            fs[n].1,
        ),
{
    reveal_strlit("true");
    reveal_strlit("false");
    reveal_strlit("null");
    lemma_find_object_field(fs, n);
    let at = field_pos(fs, n) + 1 + json_marker(fs[n].0).len();
    let rest = j.skip(at);
    let v = fs[n].1;
    assert(rest.take(v.len() as int) =~= j.subrange(at, at + v.len()));
    assert(rest[v.len() as int] == j[at + v.len()]);
    lemma_raw_scalar(rest, v);
}

/// A field whose value is a printed plain string reads back as it was
/// printed.
proof fn lemma_quoted_field(fs: Seq<(Seq<char>, Seq<char>)>, n: int, j: Seq<char>, x: Seq<char>)
    requires
        well_keyed(fs),
        0 <= n < fs.len(),
        j == object_text(fs),
        fs[n].1 == quoted(x),
        is_plain(x),
    ensures
        raw_value(trim_start(j.skip(field_pos(fs, n) + 1 + json_marker(fs[n].0).len()))) == Some(
            fs[n].1,
        ),
{
    lemma_find_object_field(fs, n);
    let at = field_pos(fs, n) + 1 + json_marker(fs[n].0).len();
    let rest = j.skip(at);
    let v = fs[n].1;
    assert(rest.take(v.len() as int) =~= j.subrange(at, at + v.len()));
    lemma_raw_quoted(rest, x);
}

/// A field whose value is a printed list of plain strings reads back as it
/// was printed.
proof fn lemma_list_field(fs: Seq<(Seq<char>, Seq<char>)>, n: int, j: Seq<char>, xs: Seq<Seq<char>>)
    requires
        well_keyed(fs),
        0 <= n < fs.len(),
        j == object_text(fs),
        fs[n].1 == list_text(xs),
        forall|k: int| 0 <= k < xs.len() ==> is_plain(#[trigger] xs[k]),
    ensures
        raw_value(trim_start(j.skip(field_pos(fs, n) + 1 + json_marker(fs[n].0).len()))) == Some(
            fs[n].1,
        ),
{
    lemma_find_object_field(fs, n);
    let at = field_pos(fs, n) + 1 + json_marker(fs[n].0).len();
    let rest = j.skip(at);
    let v = fs[n].1;
    assert(rest.take(v.len() as int) =~= j.subrange(at, at + v.len()));
    lemma_raw_list(rest, xs);
}

} // verus!
