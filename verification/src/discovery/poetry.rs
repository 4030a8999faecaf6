//! Poetry: the virtualenv directory that Poetry's `config.toml` configures.
use vstd::prelude::*;

use crate::text::{
    chars_of, lines, lines_exec, lit, seq_eq, split_once, split_once_exec, starts_with,
    starts_with_exec, string_of, trim, trim_exec, trim_two, trim_two_exec, views,
};

verus! {

/// A line without its `#` comment, trimmed.
pub open spec fn config_line(l: Seq<char>) -> Seq<char> {
    match split_once(l, '#') {
        Some((before, _)) => trim(before),
        None => trim(l),
    }
}

/// The key that names the virtualenv directory: `path` inside the
/// `[virtualenvs]` table, `virtualenvs.path` outside it.
pub open spec fn is_path_key(key: Seq<char>, in_virtualenvs: bool) -> bool {
    if in_virtualenvs {
        trim(key) == "path"@
    } else {
        trim(key) == "virtualenvs.path"@
    }
}

/// The first virtualenv path set in `ls`, read from the top with the table
/// state `in_virtualenvs`: a line starting with `[` opens a table, a
/// `key = value` line with the path key gives the value, trimmed and without
/// surrounding quotes.
pub open spec fn configured_path_in(ls: Seq<Seq<char>>, in_virtualenvs: bool) -> Option<Seq<char>>
    decreases ls.len(),
{
    if ls.len() == 0 {
        None
    } else {
        let line = config_line(ls[0]);
        if starts_with(line, seq!['[']) {
            configured_path_in(ls.drop_first(), line == "[virtualenvs]"@)
        } else {
            match split_once(line, '=') {
                Some((key, value)) => if is_path_key(key, in_virtualenvs) {
                    Some(trim_two(trim(value), '"', '\''))
                } else {
                    configured_path_in(ls.drop_first(), in_virtualenvs)
                },
                None => configured_path_in(ls.drop_first(), in_virtualenvs),
            }
        }
    }
}

/// The virtualenv directory that a Poetry `config.toml` text sets.
pub fn parse_configured_path(text: &str) -> (r: Option<String>)
    ensures
        match r {
            Some(p) => configured_path_in(lines(text@), false) == Some(p@),
            None => configured_path_in(lines(text@), false) is None,
        },
{
    let ls = lines_exec(&chars_of(text));
    let open = lit("[");
    assert(open@ =~= seq!['[']) by {
        reveal_strlit("[");
    }
    let table = lit("[virtualenvs]");
    let short_key = lit("path");
    let long_key = lit("virtualenvs.path");
    let mut in_virtualenvs = false;
    let mut i: usize = 0;
    assert(views(ls@).skip(0) =~= views(ls@));
    while i < ls.len()
        invariant
            i <= ls.len(),
            views(ls@) == lines(text@),
            open@ == seq!['['],
            table@ == "[virtualenvs]"@,
            short_key@ == "path"@,
            long_key@ == "virtualenvs.path"@,
            configured_path_in(views(ls@), false) == configured_path_in(
                views(ls@).skip(i as int),
                in_virtualenvs,
            ),
        decreases ls.len() - i,
    {
        let raw = &ls[i];
        let before = match split_once_exec(raw, '#') {
            Some((b, _)) => b,
            None => raw.clone(),
        };
        let line = trim_exec(&before);
        proof {
            let rest = views(ls@).skip(i as int);
            assert(rest[0] == raw@);
            assert(line@ == config_line(rest[0]));
            assert(rest.drop_first() =~= views(ls@).skip(i + 1));
        }
        if starts_with_exec(&line, &open) {
            in_virtualenvs = seq_eq(&line, &table);
        } else {
            match split_once_exec(&line, '=') {
                Some((key, value)) => {
                    let k = trim_exec(&key);
                    let hit = if in_virtualenvs {
                        seq_eq(&k, &short_key)
                    } else {
                        seq_eq(&k, &long_key)
                    };
                    if hit {
                        let v = trim_two_exec(&trim_exec(&value), '"', '\'');
                        proof {
                            let rest = views(ls@).skip(i as int);
                            assert(is_path_key(key@, in_virtualenvs));
                            assert(configured_path_in(rest, in_virtualenvs) == Some(v@));
                        }
                        return Some(string_of(v.as_slice()));
                    }
                },
                None => {},
            }
        }
        i += 1;
    }
    None
}

} // verus!
