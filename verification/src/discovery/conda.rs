//! Conda: the environment directories a `.condarc` file configures, and the
//! environments that `environments.txt` registers.
use vstd::prelude::*;

use crate::model::string_views;
use crate::text::{
    chars_of, lemma_find_char_is, lines, lines_exec, lit, split_once, split_once_exec, starts_with,
    starts_with_exec, string_of, trim, trim_exec, trim_start, trim_start_exec, trim_two, trim_two_exec, views,
};

verus! {

/// The line that opens the `envs_dirs` list.
pub open spec fn is_envs_dirs_header(l: Seq<char>) -> bool {
    starts_with(trim(l), "envs_dirs:"@)
}

/// A line of a YAML block list.
pub open spec fn is_list_item(l: Seq<char>) -> bool {
    starts_with(trim_start(l), seq!['-'])
}

/// The value of a list item: what follows its first `-`, trimmed, without
/// surrounding double quotes.
pub open spec fn list_item_value(l: Seq<char>) -> Seq<char> {
    match split_once(l, '-') {
        Some((_, v)) => trim_two(trim(v), '"', '"'),
        None => seq![],
    }
}

/// A list item's value is all of the line after its first `-`, trimmed and
/// without surrounding double quotes: a `-` inside the directory is kept.
pub proof fn lemma_list_item_value(before: Seq<char>, rest: Seq<char>)
    requires
        forall|i: int| 0 <= i < before.len() ==> before[i] != '-',
    ensures
        list_item_value(before + seq!['-'] + rest) == trim_two(trim(rest), '"', '"'),
{
    let l = before + seq!['-'] + rest;
    let k = before.len() as int;
    assert(l[k] == '-');
    assert forall|j: int| 0 <= j < k implies l[j] != '-' by {
        assert(l[j] == before[j]);
    }
    lemma_find_char_is(l, '-', k);
    assert(l.skip(k + 1) =~= rest);
}

/// The values of the list items at the start of `ls`.
pub open spec fn leading_list_items(ls: Seq<Seq<char>>) -> Seq<Seq<char>>
    decreases ls.len(),
{
    if ls.len() > 0 && is_list_item(ls[0]) {
        seq![list_item_value(ls[0])] + leading_list_items(ls.drop_first())
    } else {
        seq![]
    }
}

/// The list under the first `envs_dirs:` line, if there is one.
pub open spec fn envs_dirs_in(ls: Seq<Seq<char>>) -> Seq<Seq<char>>
    decreases ls.len(),
{
    if ls.len() == 0 {
        seq![]
    } else if is_envs_dirs_header(ls[0]) {
        leading_list_items(ls.drop_first())
    } else {
        envs_dirs_in(ls.drop_first())
    }
}

/// The directories listed under `envs_dirs:` in a `.condarc` text: the list
/// items that follow the first line starting with `envs_dirs:`, up to the
/// first line that is not a list item.
pub fn parse_envs_dirs(text: &str) -> (r: Vec<String>)
    ensures
        string_views(r@) == envs_dirs_in(lines(text@)),
{
    let ls = lines_exec(&chars_of(text));
    let header = lit("envs_dirs:");
    let dash = lit("-");
    assert(dash@ =~= seq!['-']) by {
        reveal_strlit("-");
    }
    let mut out: Vec<String> = Vec::new();
    let mut i: usize = 0;
    assert(views(ls@).skip(0) =~= views(ls@));
    while i < ls.len()
        invariant_except_break
            i <= ls.len(),
            header@ == "envs_dirs:"@,
            envs_dirs_in(views(ls@)) == envs_dirs_in(views(ls@).skip(i as int)),
        ensures
            i <= ls.len(),
            envs_dirs_in(views(ls@)) == envs_dirs_in(views(ls@).skip(i as int)),
            i < ls.len() ==> is_envs_dirs_header(ls@[i as int]@),
        decreases ls.len() - i,
    {
        let t = trim_exec(&ls[i]);
        if starts_with_exec(&t, &header) {
            break;
        }
        assert(views(ls@).skip(i as int)[0] == ls@[i as int]@);
        assert(views(ls@).skip(i as int).drop_first() =~= views(ls@).skip(i + 1));
        i += 1;
    }
    if i == ls.len() {
        assert(string_views(out@) =~= envs_dirs_in(views(ls@).skip(i as int)));
        return out;
    }
    assert(views(ls@).skip(i as int)[0] == ls@[i as int]@);
    assert(views(ls@).skip(i as int).drop_first() =~= views(ls@).skip(i + 1));
    let mut j: usize = i + 1;
    while j < ls.len()
        invariant_except_break
            i < j <= ls.len(),
            dash@ == seq!['-'],
            envs_dirs_in(views(ls@)) == string_views(out@) + leading_list_items(
                views(ls@).skip(j as int),
            ),
        ensures
            i < j <= ls.len(),
            envs_dirs_in(views(ls@)) == string_views(out@) + leading_list_items(
                views(ls@).skip(j as int),
            ),
            j < ls.len() ==> !is_list_item(ls@[j as int]@),
        decreases ls.len() - j,
    {
        let line = &ls[j];
        let ts = trim_start_exec(line);
        if !starts_with_exec(&ts, &dash) {
            break;
        }
        let v = match split_once_exec(line, '-') {
            Some((_, v)) => trim_two_exec(&trim_exec(&v), '"', '"'),
            None => Vec::new(),
        };
        let ghost before = string_views(out@);
        out.push(string_of(v.as_slice()));
        proof {
            let rest = views(ls@).skip(j as int);
            assert(rest[0] == line@);
            assert(is_list_item(rest[0]));
            assert(rest.drop_first() =~= views(ls@).skip(j + 1));
            assert(leading_list_items(rest) == seq![list_item_value(line@)] + leading_list_items(
                rest.drop_first(),
            ));
            assert(string_views(out@) =~= before + seq![list_item_value(line@)]);
            assert(before + leading_list_items(rest) =~= string_views(out@) + leading_list_items(
                views(ls@).skip(j + 1),
            ));
        }
        j += 1;
    }
    proof {
        let rest = views(ls@).skip(j as int);
        if rest.len() > 0 {
            assert(rest[0] == ls@[j as int]@);
        }
        assert(string_views(out@) + leading_list_items(rest) =~= string_views(out@));
    }
    out
}

/// A line of `environments.txt` that names an environment: not blank, and
/// not a `#` comment.
pub open spec fn is_registered_line(l: Seq<char>) -> bool {
    trim(l).len() > 0 && !starts_with(trim_start(l), seq!['#'])
}

/// The environments registered in the lines `ls`, each trimmed, in order.
pub open spec fn registered_in(ls: Seq<Seq<char>>) -> Seq<Seq<char>>
    decreases ls.len(),
{
    if ls.len() == 0 {
        seq![]
    } else if is_registered_line(ls.last()) {
        registered_in(ls.drop_last()).push(trim(ls.last()))
    } else {
        registered_in(ls.drop_last())
    }
}

/// The environment prefixes that an `environments.txt` text registers: each
/// line that is neither blank nor a `#` comment, trimmed.
pub fn registered_environments(text: &str) -> (r: Vec<String>)
    ensures
        string_views(r@) == registered_in(lines(text@)),
{
    let ls = lines_exec(&chars_of(text));
    let hash = lit("#");
    assert(hash@ =~= seq!['#']) by {
        reveal_strlit("#");
    }
    let mut out: Vec<String> = Vec::new();
    let mut i: usize = 0;
    while i < ls.len()
        invariant
            i <= ls.len(),
            hash@ == seq!['#'],
            string_views(out@) == registered_in(views(ls@).take(i as int)),
        decreases ls.len() - i,
    {
        let t = trim_exec(&ls[i]);
        let ts = trim_start_exec(&ls[i]);
        let keep = t.len() > 0 && !starts_with_exec(&ts, &hash);
        let ghost before = string_views(out@);
        proof {
            let pre = views(ls@).take(i + 1);
            assert(pre.drop_last() =~= views(ls@).take(i as int));
            assert(pre.last() == ls@[i as int]@);
        }
        if keep {
            out.push(string_of(t.as_slice()));
            assert(string_views(out@) =~= before.push(t@));
        }
        i += 1;
    }
    assert(views(ls@).take(ls.len() as int) =~= views(ls@));
    out
}

} // verus!
