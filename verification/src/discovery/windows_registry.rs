//! The Windows registry: the interpreters that PEP 514 install keys name, read
//! from the text that `reg query ... /s` prints.
use vstd::prelude::*;

use crate::model::string_views;
use crate::paths::{has_drive, is_sep, is_sep_exec, main_sep, PathStyle};
use crate::text::{
    chars_of, concat, eq_ignore_ascii_case, eq_ignore_ascii_case_exec, lines, lines_exec, lit,
    split, split_exec, split_once_seq, split_once_seq_exec, starts_with, starts_with_exec,
    string_of, trim, trim_exec, views,
};

verus! {

/// The position of the first `PythonCore` part (in any ASCII case).
pub open spec fn core_position(parts: Seq<Seq<char>>) -> Option<int>
    decreases parts.len(),
{
    if parts.len() == 0 {
        None
    } else if eq_ignore_ascii_case(parts[0], "PythonCore"@) {
        Some(0)
    } else {
        match core_position(parts.drop_first()) {
            Some(i) => Some(i + 1),
            None => None,
        }
    }
}

/// A PEP 514 install key: `...\PythonCore\<tag>\InstallPath`, with a
/// non-empty tag and nothing after `InstallPath`.
pub open spec fn is_install_key(key: Seq<char>) -> bool {
    let parts = split(key, '\\');
    match core_position(parts) {
        Some(i) => parts.len() == i + 3 && parts[i + 1].len() > 0 && eq_ignore_ascii_case(
            parts[i + 2],
            "InstallPath"@,
        ),
        None => false,
    }
}

/// `name` (a plain file name) joined under the directory `base` as
/// `PathBuf::join` joins it with the path conventions of `style`: the
/// platform's separator between them, except after an empty base or a base
/// that already ends with a separator, and on Windows after a bare drive
/// such as `C:`. For a Windows base with a verbatim prefix (`\\?\...`) std
/// also rebuilds the text from its components, which this join does not;
/// such a base is not a trusted drive path, so discovery refuses the
/// interpreter it names either way.
pub open spec fn path_join(base: Seq<char>, name: Seq<char>, style: PathStyle) -> Seq<char> {
    if base.len() == 0 || is_sep(style, base.last()) || (style == PathStyle::Windows
        && base.len() == 2 && has_drive(base)) {
        base + name
    } else {
        base + seq![main_sep(style)] + name
    }
}

pub open spec fn is_default_value(name: Seq<char>) -> bool {
    eq_ignore_ascii_case(name, "(Default)"@)
}

pub open spec fn is_executable_value(name: Seq<char>) -> bool {
    eq_ignore_ascii_case(name, "ExecutablePath"@)
}

/// What one value line under the key `key` contributes: the interpreter of an
/// install key's `(Default)` directory, or its `ExecutablePath`.
pub open spec fn registry_value(key: Option<Seq<char>>, line: Seq<char>, style: PathStyle) -> Seq<
    Seq<char>,
> {
    match key {
        None => seq![],
        Some(k) => match split_once_seq(line, "REG_SZ"@) {
            None => seq![],
            Some((n, v)) => {
                let name = trim(n);
                if is_install_key(k) && (is_default_value(name) || is_executable_value(name)) {
                    if is_default_value(name) {
                        seq![path_join(trim(v), "python.exe"@, style)]
                    } else {
                        seq![trim(v)]
                    }
                } else {
                    seq![]
                }
            },
        },
    }
}

/// The interpreters named in the lines `ls`, read from the top with `key` the
/// last key line seen (a trimmed line starting with `HKEY_`).
pub open spec fn registry_paths(
    ls: Seq<Seq<char>>,
    key: Option<Seq<char>>,
    style: PathStyle,
) -> Seq<Seq<char>>
    decreases ls.len(),
{
    if ls.len() == 0 {
        seq![]
    } else {
        let t = trim(ls[0]);
        if starts_with(t, "HKEY_"@) {
            registry_paths(ls.drop_first(), Some(t), style)
        } else {
            registry_value(key, t, style) + registry_paths(ls.drop_first(), key, style)
        }
    }
}

/// The characters of an optional vector.
pub open spec fn opt_chars(o: Option<Vec<char>>) -> Option<Seq<char>> {
    match o {
        Some(v) => Some(v@),
        None => None,
    }
}

fn core_position_exec(parts: &Vec<Vec<char>>, core: &Vec<char>) -> (r: Option<usize>)
    requires
        core@ == "PythonCore"@,
    ensures
        match r {
            Some(i) => core_position(views(parts@)) == Some(i as int) && i < parts.len(),
            None => core_position(views(parts@)) is None,
        },
{
    let mut i: usize = 0;
    assert(views(parts@).skip(0) =~= views(parts@));
    while i < parts.len()
        invariant
            i <= parts.len(),
            core@ == "PythonCore"@,
            core_position(views(parts@)) == match core_position(views(parts@).skip(i as int)) {
                Some(j) => Some(j + i),
                None => None::<int>,
            },
        decreases parts.len() - i,
    {
        let ghost rest = views(parts@).skip(i as int);
        assert(rest[0] == parts@[i as int]@);
        if eq_ignore_ascii_case_exec(&parts[i], core) {
            return Some(i);
        }
        assert(rest.drop_first() =~= views(parts@).skip(i + 1));
        i += 1;
    }
    None
}

/// Whether `key` is a PEP 514 install key,
/// `...\PythonCore\<tag>\InstallPath`.
pub fn is_pep514_install_key(key: &str) -> (r: bool)
    ensures
        r == is_install_key(key@),
{
    let parts = split_exec(&chars_of(key), '\\');
    let core = lit("PythonCore");
    let install = lit("InstallPath");
    match core_position_exec(&parts, &core) {
        Some(i) => {
            if parts.len() - i != 3 {
                return false;
            }
            assert(views(parts@)[i + 1] == parts@[i + 1]@);
            assert(views(parts@)[i + 2] == parts@[i + 2]@);
            parts[i + 1].len() > 0 && eq_ignore_ascii_case_exec(&parts[i + 2], &install)
        },
        None => false,
    }
}

fn path_join_exec(base: &Vec<char>, name: &Vec<char>, style: PathStyle) -> (r: Vec<char>)
    ensures
        r@ == path_join(base@, name@, style),
{
    let n = base.len();
    let windows = match style {
        PathStyle::Windows => true,
        PathStyle::Unix => false,
    };
    if n == 0 || is_sep_exec(style, base[n - 1]) || (windows && n == 2 && (('a' <= base[0]
        && base[0] <= 'z') || ('A' <= base[0] && base[0] <= 'Z')) && base[1] == ':') {
        concat(base, name)
    } else {
        let mut with_sep = base.clone();
        with_sep.push(if windows {
            '\\'
        } else {
            '/'
        });
        concat(&with_sep, name)
    }
}

/// The interpreters that the install keys in the output of
/// `reg query <hive> /s` name: under each PEP 514 install key, the
/// `(Default)` value names the install directory (its `python.exe` is taken)
/// and `ExecutablePath` names the interpreter itself. Paths are joined with
/// the conventions of `style`, those of the machine the output comes from.
pub fn parse_registry_output(stdout: &str, style: PathStyle) -> (r: Vec<String>)
    ensures
        string_views(r@) == registry_paths(lines(stdout@), None, style),
{
    let ls = lines_exec(&chars_of(stdout));
    let hkey = lit("HKEY_");
    let reg_sz = lit("REG_SZ");
    let default_name = lit("(Default)");
    let exe_name = lit("ExecutablePath");
    let python_exe = lit("python.exe");
    let mut current: Option<Vec<char>> = None;
    let mut out: Vec<String> = Vec::new();
    let mut i: usize = 0;
    assert(views(ls@).skip(0) =~= views(ls@));
    assert(string_views(out@) + registry_paths(views(ls@), None, style) =~= registry_paths(
        views(ls@),
        None,
        style,
    ));
    while i < ls.len()
        invariant
            i <= ls.len(),
            views(ls@) == lines(stdout@),
            hkey@ == "HKEY_"@,
            reg_sz@ == "REG_SZ"@,
            default_name@ == "(Default)"@,
            exe_name@ == "ExecutablePath"@,
            python_exe@ == "python.exe"@,
            registry_paths(lines(stdout@), None, style) == string_views(out@) + registry_paths(
                views(ls@).skip(i as int),
                opt_chars(current),
                style,
            ),
        decreases ls.len() - i,
    {
        let ghost cur = opt_chars(current);
        let ghost rest = views(ls@).skip(i as int);
        let t = trim_exec(&ls[i]);
        proof {
            assert(rest[0] == ls@[i as int]@);
            assert(rest.drop_first() =~= views(ls@).skip(i + 1));
        }
        if starts_with_exec(&t, &hkey) {
            current = Some(t);
        } else {
            let ghost before = string_views(out@);
            let mut added: Option<Vec<char>> = None;
            match &current {
                None => {},
                Some(k) => {
                    match split_once_seq_exec(&t, &reg_sz) {
                        None => {},
                        Some((n, v)) => {
                            let name = trim_exec(&n);
                            let is_default = eq_ignore_ascii_case_exec(&name, &default_name);
                            let is_exe = eq_ignore_ascii_case_exec(&name, &exe_name);
                            let key_text = string_of(k.as_slice());
                            if (is_default || is_exe) && is_pep514_install_key(key_text.as_str()) {
                                let value = trim_exec(&v);
                                if is_default {
                                    added = Some(path_join_exec(&value, &python_exe, style));
                                } else {
                                    added = Some(value);
                                }
                            }
                        },
                    }
                },
            }
            match added {
                Some(p) => {
                    assert(registry_value(cur, t@, style) == seq![p@]);
                    out.push(string_of(p.as_slice()));
                    assert(string_views(out@) =~= before + seq![p@]);
                },
                None => {
                    assert(registry_value(cur, t@, style) =~= Seq::<Seq<char>>::empty());
                },
            }
            assert(before + (registry_value(cur, t@, style) + registry_paths(rest.drop_first(), cur, style))
                =~= string_views(out@) + registry_paths(rest.drop_first(), cur, style));
        }
        i += 1;
    }
    assert(string_views(out@) + registry_paths(views(ls@).skip(i as int), None, style) =~= string_views(
        out@,
    ));
    assert(string_views(out@) + Seq::<Seq<char>>::empty() =~= string_views(out@));
    out
}

} // verus!
