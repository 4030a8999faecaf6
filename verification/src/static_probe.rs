//! Probing an environment without running its interpreter: what its
//! site-packages directory holds, read from distribution metadata.
use vstd::prelude::*;

use crate::model::{opt_view, string_views, ProbeResult};
use crate::probe::{decode_lossy, utf8_lossy};
use crate::text::{
    ascii_lower, ascii_lower_exec, chars_of, ends_with, ends_with_exec, is_ascii_alphanumeric, lines, lines_exec, lit, seq_eq,
    split, split_exec, starts_with, string_of, strip_prefix_exec, trim, trim_exec, views,
};

verus! {

/// The most entries of a directory that are looked at.
pub const MAX_METADATA_ENTRIES: usize = 4096;

/// The most bytes of a metadata file that are read.
pub const MAX_METADATA_BYTES: usize = 1024 * 1024;

/// The most top-level names that are kept.
pub const MAX_TOP_LEVEL_NAMES: usize = 4096;

/// The characters that `char::to_lowercase` maps `c` to.
pub uninterp spec fn char_lowercase(c: char) -> Seq<char>;

/// `char::to_lowercase`: the lowercase mapping of `c` in the Unicode
/// character database (one to three characters).
#[verifier::external_body]
fn lowercase_of(c: char) -> (r: Vec<char>)
    ensures
        r@ == char_lowercase(c),
{
    c.to_lowercase().collect()
}

/// The separators that distribution names treat as one: `-`, `_` and `.`.
pub open spec fn is_name_sep(c: char) -> bool {
    c == '-' || c == '_' || c == '.'
}

/// The lowercase mapping of `c`: an ASCII character maps to its ASCII
/// lowercase form, any other character as `char::to_lowercase` maps it.
pub open spec fn lowercase_chars(c: char) -> Seq<char> {
    if (c as u32) < 128 {
        seq![ascii_lower(c)]
    } else {
        char_lowercase(c)
    }
}

/// A distribution name in canonical form: separators dropped, every other
/// character lowercased.
pub open spec fn canonical(s: Seq<char>) -> Seq<char>
    decreases s.len(),
{
    if s.len() == 0 {
        seq![]
    } else if is_name_sep(s.last()) {
        canonical(s.drop_last())
    } else {
        canonical(s.drop_last()) + lowercase_chars(s.last())
    }
}

/// The canonical form of a distribution name: separators (`-`, `_`, `.`)
/// dropped and the rest lowercased.
pub fn canonicalize(value: &str) -> (r: String)
    ensures
        r@ == canonical(value@),
{
    let s = chars_of(value);
    let mut out: Vec<char> = Vec::new();
    let mut i: usize = 0;
    while i < s.len()
        invariant
            i <= s.len(),
            out@ == canonical(s@.take(i as int)),
        decreases s.len() - i,
    {
        let c = s[i];
        proof {
            assert(s@.take(i + 1).drop_last() =~= s@.take(i as int));
            assert(s@.take(i + 1).last() == c);
        }
        if !(c == '-' || c == '_' || c == '.') && (c as u32) < 128 {
            out.push(ascii_lower_exec(c));
        } else if !(c == '-' || c == '_' || c == '.') {
            let low = lowercase_of(c);
            let mut k: usize = 0;
            let ghost before = out@;
            while k < low.len()
                invariant
                    k <= low.len(),
                    out@ == before + low@.take(k as int),
                decreases low.len() - k,
            {
                out.push(low[k]);
                k += 1;
                assert(out@ =~= before + low@.take(k as int));
            }
            assert(low@.take(low.len() as int) =~= low@);
        }
        i += 1;
    }
    assert(s@.take(s.len() as int) =~= s@);
    string_of(out.as_slice())
}

/// A name that can stand for a top-level import: not empty, only ASCII
/// letters, digits and `_`.
pub open spec fn is_valid_name(s: Seq<char>) -> bool {
    s.len() > 0 && forall|i: int| 0 <= i < s.len() ==> s[i] == '_' || is_ascii_alphanumeric(#[trigger] s[i])
}

fn valid_name_chars(s: &Vec<char>) -> (r: bool)
    ensures
        r == is_valid_name(s@),
{
    if s.len() == 0 {
        return false;
    }
    let mut i: usize = 0;
    while i < s.len()
        invariant
            i <= s.len(),
            forall|j: int| 0 <= j < i ==> s@[j] == '_' || is_ascii_alphanumeric(#[trigger] s@[j]),
        decreases s.len() - i,
    {
        let c = s[i];
        if !(c == '_' || ('a' <= c && c <= 'z') || ('A' <= c && c <= 'Z') || ('0' <= c && c <= '9')) {
            return false;
        }
        i += 1;
    }
    true
}

/// Whether `value` can stand for a top-level import name.
pub fn valid_name(value: &str) -> (r: bool)
    ensures
        r == is_valid_name(value@),
{
    valid_name_chars(&chars_of(value))
}

/// The value of the first `Name:` line, trimmed.
pub open spec fn name_field(ls: Seq<Seq<char>>) -> Option<Seq<char>>
    decreases ls.len(),
{
    if ls.len() == 0 {
        None
    } else if starts_with(ls[0], "Name:"@) {
        Some(trim(ls[0].skip("Name:"@.len() as int)))
    } else {
        name_field(ls.drop_first())
    }
}

/// The distribution name that a `METADATA` or `PKG-INFO` text declares: the
/// first `Name:` line, when its value is not empty.
pub open spec fn declared_name(text: Seq<char>) -> Option<Seq<char>> {
    match name_field(lines(text)) {
        Some(n) => if n.len() > 0 {
            Some(n)
        } else {
            None
        },
        None => None,
    }
}

/// The distribution name that a metadata text declares.
pub fn metadata_name(text: &str) -> (r: Option<String>)
    ensures
        opt_view(r) == declared_name(text@),
{
    let ls = lines_exec(&chars_of(text));
    let prefix = lit("Name:");
    let mut i: usize = 0;
    assert(views(ls@).skip(0) =~= views(ls@));
    while i < ls.len()
        invariant
            i <= ls.len(),
            views(ls@) == lines(text@),
            prefix@ == "Name:"@,
            name_field(views(ls@)) == name_field(views(ls@).skip(i as int)),
        decreases ls.len() - i,
    {
        proof {
            let rest = views(ls@).skip(i as int);
            assert(rest[0] == ls@[i as int]@);
            assert(rest.drop_first() =~= views(ls@).skip(i + 1));
        }
        match strip_prefix_exec(&ls[i], &prefix) {
            Some(v) => {
                let name = trim_exec(&v);
                if name.len() == 0 {
                    return None;
                }
                return Some(string_of(name.as_slice()));
            },
            None => {},
        }
        i += 1;
    }
    None
}

/// The top-level import names a `top_level.txt` text lists: its lines,
/// trimmed, that are valid names, at most `MAX_TOP_LEVEL_NAMES` of them.
pub open spec fn listed_names(text: Seq<char>) -> Seq<Seq<char>> {
    let names = lines(text).map_values(|l: Seq<char>| trim(l)).filter(
        |n: Seq<char>| is_valid_name(n),
    );
    if names.len() <= MAX_TOP_LEVEL_NAMES {
        names
    } else {
        names.take(MAX_TOP_LEVEL_NAMES as int)
    }
}

/// The top-level import names a `top_level.txt` text lists.
pub fn top_level_names(text: &str) -> (r: Vec<String>)
    ensures
        string_views(r@) == listed_names(text@),
{
    let ls = lines_exec(&chars_of(text));
    let ghost all = lines(text@).map_values(|l: Seq<char>| trim(l));
    let ghost pred = |n: Seq<char>| is_valid_name(n);
    let mut out: Vec<String> = Vec::new();
    let mut i: usize = 0;
    assert(all.take(0) =~= Seq::<Seq<char>>::empty());
    assert(all.take(0).filter(pred) =~= Seq::<Seq<char>>::empty());
    while i < ls.len() && out.len() < MAX_TOP_LEVEL_NAMES
        invariant
            i <= ls.len(),
            views(ls@) == lines(text@),
            all == lines(text@).map_values(|l: Seq<char>| trim(l)),
            pred == (|n: Seq<char>| is_valid_name(n)),
            out.len() <= MAX_TOP_LEVEL_NAMES,
            string_views(out@) == all.take(i as int).filter(pred),
        decreases ls.len() - i,
    {
        let t = trim_exec(&ls[i]);
        let ghost before = string_views(out@);
        proof {
            assert(all.take(i + 1).drop_last() =~= all.take(i as int));
            assert(all[i as int] == t@);
            assert(all.take(i + 1).last() == t@);
            reveal(Seq::filter);
        }
        if valid_name_chars(&t) {
            out.push(string_of(t.as_slice()));
            assert(string_views(out@) =~= before.push(t@));
        }
        i += 1;
    }
    proof {
        let names = all.filter(pred);
        if out.len() < MAX_TOP_LEVEL_NAMES {
            assert(i == ls.len());
            assert(all.take(i as int) =~= all);
        } else {
            // every name after the first `MAX_TOP_LEVEL_NAMES` is dropped
            lemma_filter_take_prefix(all, pred, i as int);
        }
    }
    out
}

/// Filtering a longer prefix keeps the filtered shorter prefix in front.
proof fn lemma_filter_take_prefix(s: Seq<Seq<char>>, pred: spec_fn(Seq<char>) -> bool, i: int)
    requires
        0 <= i <= s.len(),
        s.take(i).filter(pred).len() == MAX_TOP_LEVEL_NAMES,
    ensures
        (if s.filter(pred).len() <= MAX_TOP_LEVEL_NAMES {
            s.filter(pred)
        } else {
            s.filter(pred).take(MAX_TOP_LEVEL_NAMES as int)
        }) == s.take(i).filter(pred),
{
    assert(s =~= s.take(i) + s.skip(i));
    Seq::filter_distributes_over_add(s.take(i), s.skip(i), pred);
    let a = s.take(i).filter(pred);
    let b = s.skip(i).filter(pred);
    assert(s.filter(pred) == a + b);
    assert((a + b).take(a.len() as int) =~= a);
}

/// The text of a metadata file's bytes, or `None` when the file holds more
/// than `MAX_METADATA_BYTES` bytes.
pub fn capped_text(bytes: Vec<u8>) -> (r: Option<String>)
    ensures
        bytes@.len() > MAX_METADATA_BYTES ==> r is None,
        bytes@.len() <= MAX_METADATA_BYTES ==> (r matches Some(t) && t@ == utf8_lossy(bytes@)),
{
    if bytes.len() > MAX_METADATA_BYTES {
        return None;
    }
    Some(decode_lossy(bytes.as_slice()))
}

/// Whether a site-packages entry is a distribution's metadata directory.
pub fn is_metadata_dir(name: &str) -> (r: bool)
    ensures
        r == (ends_with(name@, ".dist-info"@) || ends_with(name@, ".egg-info"@)),
{
    let n = chars_of(name);
    ends_with_exec(&n, &lit(".dist-info")) || ends_with_exec(&n, &lit(".egg-info"))
}

/// The import root of a query: its first dotted part, when that is a valid
/// name.
pub open spec fn import_root_of(query: Seq<char>) -> Option<Seq<char>> {
    let first = split(query, '.')[0];
    if is_valid_name(first) {
        Some(first)
    } else {
        None
    }
}

/// A static probe under way: the query, what it is matched against, and
/// what the entries seen so far showed.
pub struct StaticProbe {
    pub query: String,
    pub wanted: Vec<char>,
    pub import_root: Option<Vec<char>>,
    pub result: ProbeResult,
}

/// The characters of an optional vector.
pub open spec fn opt_seq(o: Option<Vec<char>>) -> Option<Seq<char>> {
    match o {
        Some(v) => Some(v@),
        None => None,
    }
}

/// The result list `tops` extended by `more`, up to `MAX_TOP_LEVEL_NAMES`
/// added in all.
pub open spec fn capped_extend(tops: Seq<Seq<char>>, more: Seq<Seq<char>>) -> Seq<Seq<char>> {
    let room = if tops.len() >= MAX_TOP_LEVEL_NAMES {
        0
    } else {
        MAX_TOP_LEVEL_NAMES - tops.len()
    };
    if more.len() <= room {
        tops + more
    } else {
        tops + more.take(room)
    }
}

impl StaticProbe {
    /// A probe for `query` that has seen nothing yet.
    pub fn new(query: &str) -> (p: StaticProbe)
        ensures
            p.query@ == query@,
            p.wanted@ == canonical(query@),
            opt_seq(p.import_root) == import_root_of(query@),
            !p.result.import_match,
            !p.result.distribution_match,
            p.result.import_name is None,
            p.result.distribution_name is None,
            p.result.providers@.len() == 0,
            p.result.top_level_imports@.len() == 0,
    {
        let q = chars_of(query);
        let parts = split_exec(&q, '.');
        let root = if parts.len() > 0 && valid_name_chars(&parts[0]) {
            Some(parts[0].clone())
        } else {
            None
        };
        proof {
            assert(views(parts@).len() > 0 ==> views(parts@)[0] == parts@[0]@);
            lemma_split_nonempty(q@, '.');
        }
        StaticProbe {
            query: query.to_owned(),
            wanted: chars_of(canonicalize(query).as_str()),
            import_root: root,
            result: ProbeResult {
                import_match: false,
                distribution_match: false,
                import_name: None,
                distribution_name: None,
                providers: Vec::new(),
                top_level_imports: Vec::new(),
            },
        }
    }

    /// An entry of site-packages: a file or directory named after the import
    /// root is a match of the import.
    pub fn note_entry(&mut self, name: &str, is_file_or_dir: bool)
        ensures
            final(self).query == old(self).query,
            final(self).wanted == old(self).wanted,
            final(self).import_root == old(self).import_root,
            final(self).result.import_match == (old(self).result.import_match || (is_file_or_dir
                && opt_seq(old(self).import_root) == Some(name@))),
            final(self).result.distribution_match == old(self).result.distribution_match,
            final(self).result.import_name == old(self).result.import_name,
            final(self).result.distribution_name == old(self).result.distribution_name,
            final(self).result.providers == old(self).result.providers,
            final(self).result.top_level_imports == old(self).result.top_level_imports,
    {
        if is_file_or_dir {
            let hit = match &self.import_root {
                Some(root) => seq_eq(root, &chars_of(name)),
                None => false,
            };
            if hit {
                self.result.import_match = true;
            }
        }
    }

    /// A distribution found in site-packages with its top-level names: it
    /// matches when its canonical name is the query's; it provides the import
    /// root when it lists it (and is then named once among the providers).
    pub fn note_distribution(&mut self, distribution: &str, top_levels: &Vec<String>)
        ensures
            final(self).query == old(self).query,
            final(self).wanted == old(self).wanted,
            final(self).import_root == old(self).import_root,
            final(self).result.import_name == old(self).result.import_name,
            canonical(distribution@) == old(self).wanted@ ==> {
                &&& final(self).result.distribution_match
                &&& opt_view(final(self).result.distribution_name) == Some(distribution@)
                &&& string_views(final(self).result.top_level_imports@) == capped_extend(
                    string_views(old(self).result.top_level_imports@),
                    string_views(top_levels@),
                )
            },
            canonical(distribution@) != old(self).wanted@ ==> {
                &&& final(self).result.distribution_match == old(self).result.distribution_match
                &&& final(self).result.distribution_name == old(self).result.distribution_name
                &&& final(self).result.top_level_imports == old(self).result.top_level_imports
            },
            ({
                let provides = opt_seq(old(self).import_root) matches Some(root)
                    && string_views(top_levels@).contains(root);
                let olds = string_views(old(self).result.providers@);
                &&& final(self).result.import_match == (old(self).result.import_match || provides)
                &&& string_views(final(self).result.providers@) == if provides && !olds.contains(
                    distribution@,
                ) {
                    olds.push(distribution@)
                } else {
                    olds
                }
            }),
    {
        let dist = chars_of(distribution);
        if seq_eq(&chars_of(canonicalize(distribution).as_str()), &self.wanted) {
            self.result.distribution_match = true;
            self.result.distribution_name = Some(distribution.to_owned());
            let have = self.result.top_level_imports.len();
            let room = if have >= MAX_TOP_LEVEL_NAMES {
                0
            } else {
                MAX_TOP_LEVEL_NAMES - have
            };
            let mut tops: Vec<String> = Vec::new();
            std::mem::swap(&mut tops, &mut self.result.top_level_imports);
            let ghost start = string_views(tops@);
            let ghost more = string_views(top_levels@);
            let mut i: usize = 0;
            while i < top_levels.len() && i < room
                invariant
                    i <= top_levels.len(),
                    i <= room,
                    more == string_views(top_levels@),
                    string_views(tops@) == start + more.take(i as int),
                decreases top_levels.len() - i,
            {
                let ghost before = tops@;
                let name = top_levels[i].clone();
                tops.push(name);
                i += 1;
                assert(string_views(tops@) =~= string_views(before).push(name@));
                assert(more.take(i as int) =~= more.take(i - 1).push(name@));
                assert(string_views(tops@) =~= start + more.take(i as int));
            }
            assert(more.len() <= room ==> more.take(i as int) =~= more);
            self.result.top_level_imports = tops;
        }
        let provides = match &self.import_root {
            Some(root) => contains_name(top_levels, root),
            None => false,
        };
        if provides {
            self.result.import_match = true;
            if !contains_name(&self.result.providers, &dist) {
                let ghost olds = string_views(self.result.providers@);
                self.result.providers.push(distribution.to_owned());
                assert(string_views(self.result.providers@) =~= olds.push(distribution@));
            }
        }
    }

    /// The result of the probe: the query stands as the import name when it
    /// matched as an import; `None` when nothing matched.
    pub fn finish(self) -> (r: Option<ProbeResult>)
        ensures
            !self.result.import_match && !self.result.distribution_match ==> r is None,
            self.result.import_match || self.result.distribution_match ==> (r matches Some(res) && {
                &&& res.import_match == self.result.import_match
                &&& res.distribution_match == self.result.distribution_match
                &&& opt_view(res.import_name) == if self.result.import_match {
                    Some(self.query@)
                } else {
                    opt_view(self.result.import_name)
                }
                &&& res.distribution_name == self.result.distribution_name
                &&& res.providers == self.result.providers
                &&& res.top_level_imports == self.result.top_level_imports
            }),
    {
        let mut result = self.result;
        if result.import_match {
            result.import_name = Some(self.query.clone());
        }
        if result.import_match || result.distribution_match {
            Some(result)
        } else {
            None
        }
    }
}

// ---------------------------------------------------------------------------
// A whole site-packages listing
// ---------------------------------------------------------------------------
/// A distribution read from a metadata directory: the name its metadata
/// gives and the names its `top_level.txt` lists.
pub struct DistributionInfo {
    pub name: String,
    pub top_levels: Vec<String>,
}

/// An entry of site-packages as the probe sees it: its name, whether it is a
/// regular file or directory, and the distribution it describes when it is a
/// metadata directory whose metadata names one.
pub struct SiteEntry {
    pub name: String,
    pub is_file_or_dir: bool,
    pub distribution: Option<DistributionInfo>,
}

/// The entry is a file or directory named after the import root.
pub open spec fn names_root(e: SiteEntry, root: Option<Seq<char>>) -> bool {
    e.is_file_or_dir && root == Some(e.name@)
}

/// The entry's distribution lists the import root among its top-level names.
pub open spec fn provides_root(e: SiteEntry, root: Option<Seq<char>>) -> bool {
    &&& e.distribution matches Some(d)
    &&& root matches Some(r)
    &&& string_views(d.top_levels@).contains(r)
}

/// The entry's distribution has the canonical name `wanted`.
pub open spec fn distribution_matches(e: SiteEntry, wanted: Seq<char>) -> bool {
    e.distribution matches Some(d) && canonical(d.name@) == wanted
}

/// Some entry shows the import: it is named after the root, or its
/// distribution provides it.
pub open spec fn import_found(es: Seq<SiteEntry>, root: Option<Seq<char>>) -> bool {
    exists|k: int| 0 <= k < es.len() && (names_root(#[trigger] es[k], root) || provides_root(es[k], root))
}

/// Some entry's distribution has the wanted canonical name.
pub open spec fn distribution_found(es: Seq<SiteEntry>, wanted: Seq<char>) -> bool {
    exists|k: int| 0 <= k < es.len() && distribution_matches(#[trigger] es[k], wanted)
}

/// The name of the last distribution with the wanted canonical name.
pub open spec fn last_distribution(es: Seq<SiteEntry>, wanted: Seq<char>) -> Option<Seq<char>>
    decreases es.len(),
{
    if es.len() == 0 {
        None
    } else if distribution_matches(es.last(), wanted) {
        Some(es.last().distribution->0.name@)
    } else {
        last_distribution(es.drop_last(), wanted)
    }
}

/// The distributions that provide the import root, each once, in the order
/// first seen.
pub open spec fn providers_of(es: Seq<SiteEntry>, root: Option<Seq<char>>) -> Seq<Seq<char>>
    decreases es.len(),
{
    if es.len() == 0 {
        seq![]
    } else {
        let before = providers_of(es.drop_last(), root);
        let e = es.last();
        if provides_root(e, root) && !before.contains(e.distribution->0.name@) {
            before.push(e.distribution->0.name@)
        } else {
            before
        }
    }
}

/// The top-level names of the matching distributions, in order, up to
/// `MAX_TOP_LEVEL_NAMES`.
pub open spec fn tops_of(es: Seq<SiteEntry>, wanted: Seq<char>) -> Seq<Seq<char>>
    decreases es.len(),
{
    if es.len() == 0 {
        seq![]
    } else if distribution_matches(es.last(), wanted) {
        capped_extend(
            tops_of(es.drop_last(), wanted),
            string_views(es.last().distribution->0.top_levels@),
        )
    } else {
        tops_of(es.drop_last(), wanted)
    }
}

/// What a static probe for `query` finds in a site-packages listing: the
/// import when an entry is named after the import root or a distribution
/// lists it, the distribution when one has the query's canonical name;
/// `None` when neither.
pub fn probe_listing(query: &str, entries: &Vec<SiteEntry>) -> (r: Option<ProbeResult>)
    ensures
        ({
            let root = import_root_of(query@);
            let wanted = canonical(query@);
            let es = entries@;
            &&& r is None <==> !import_found(es, root) && !distribution_found(es, wanted)
            &&& r matches Some(res) ==> {
                &&& res.import_match == import_found(es, root)
                &&& res.distribution_match == distribution_found(es, wanted)
                &&& opt_view(res.import_name) == if import_found(es, root) {
                    Some(query@)
                } else {
                    None
                }
                &&& opt_view(res.distribution_name) == last_distribution(es, wanted)
                &&& string_views(res.providers@) == providers_of(es, root)
                &&& string_views(res.top_level_imports@) == tops_of(es, wanted)
            }
        }),
{
    let ghost root = import_root_of(query@);
    let ghost wanted = canonical(query@);
    let ghost es = entries@;
    let mut p = StaticProbe::new(query);
    let mut i: usize = 0;
    assert(es.take(0) =~= Seq::<SiteEntry>::empty());
    while i < entries.len()
        invariant
            i <= entries.len(),
            es == entries@,
            root == import_root_of(query@),
            wanted == canonical(query@),
            p.query@ == query@,
            p.wanted@ == wanted,
            opt_seq(p.import_root) == root,
            p.result.import_name is None,
            p.result.import_match == import_found(es.take(i as int), root),
            p.result.distribution_match == distribution_found(es.take(i as int), wanted),
            opt_view(p.result.distribution_name) == last_distribution(es.take(i as int), wanted),
            string_views(p.result.providers@) == providers_of(es.take(i as int), root),
            string_views(p.result.top_level_imports@) == tops_of(es.take(i as int), wanted),
        decreases entries.len() - i,
    {
        let e = &entries[i];
        let ghost pre = es.take(i as int);
        let ghost next = es.take(i + 1);
        proof {
            assert(next.drop_last() =~= pre);
            assert(next.last() == *e);
        }
        let ghost import_before = p.result.import_match;
        p.note_entry(e.name.as_str(), e.is_file_or_dir);
        match &e.distribution {
            Some(d) => {
                p.note_distribution(d.name.as_str(), &d.top_levels);
            },
            None => {},
        }
        proof {
            if import_found(next, root) && !import_before {
                let k = choose|k: int|
                    0 <= k < next.len() && (names_root(#[trigger] next[k], root) || provides_root(
                        next[k],
                        root,
                    ));
                if k < i {
                    assert(pre[k] == next[k]);
                }
            }
            if import_found(pre, root) {
                let k = choose|k: int|
                    0 <= k < pre.len() && (names_root(#[trigger] pre[k], root) || provides_root(
                        pre[k],
                        root,
                    ));
                assert(next[k] == pre[k]);
            }
            if names_root(*e, root) || provides_root(*e, root) {
                assert(names_root(next[i as int], root) || provides_root(next[i as int], root));
            }
            if distribution_found(next, wanted) {
                let k = choose|k: int| 0 <= k < next.len() && distribution_matches(#[trigger] next[k], wanted);
                if k < i {
                    assert(pre[k] == next[k]);
                }
            }
            if distribution_found(pre, wanted) {
                let k = choose|k: int| 0 <= k < pre.len() && distribution_matches(#[trigger] pre[k], wanted);
                assert(next[k] == pre[k]);
            }
            if distribution_matches(*e, wanted) {
                assert(distribution_matches(next[i as int], wanted));
            }
        }
        i += 1;
    }
    assert(es.take(entries.len() as int) =~= es);
    p.finish()
}

/// The providers of a listing are named once each, and are exactly the
/// distributions that list the import root.
pub proof fn lemma_providers_of(es: Seq<SiteEntry>, root: Option<Seq<char>>)
    ensures
        providers_of(es, root).no_duplicates(),
        forall|x: Seq<char>|
            #[trigger] providers_of(es, root).contains(x) <==> exists|k: int|
                0 <= k < es.len() && provides_root(#[trigger] es[k], root)
                    && es[k].distribution->0.name@ == x,
    decreases es.len(),
{
    if es.len() > 0 {
        let init = es.drop_last();
        lemma_providers_of(init, root);
        let before = providers_of(init, root);
        let e = es.last();
        assert forall|x: Seq<char>| #[trigger] providers_of(es, root).contains(x) <==> exists|k: int|
            0 <= k < es.len() && provides_root(#[trigger] es[k], root)
                && es[k].distribution->0.name@ == x by {
            if providers_of(es, root).contains(x) {
                if before.contains(x) {
                    let k = choose|k: int|
                        0 <= k < init.len() && provides_root(#[trigger] init[k], root)
                            && init[k].distribution->0.name@ == x;
                    assert(es[k] == init[k]);
                } else {
                    let j = choose|j: int| 0 <= j < providers_of(es, root).len() && providers_of(es, root)[j] == x;
                    assert(provides_root(e, root) && e.distribution->0.name@ == x);
                    assert(es[es.len() - 1] == e);
                }
            }
            if exists|k: int|
                0 <= k < es.len() && provides_root(#[trigger] es[k], root)
                    && es[k].distribution->0.name@ == x {
                let k = choose|k: int|
                    0 <= k < es.len() && provides_root(#[trigger] es[k], root)
                        && es[k].distribution->0.name@ == x;
                if k < init.len() {
                    assert(init[k] == es[k]);
                    assert(before.contains(x));
                    if provides_root(e, root) && !before.contains(e.distribution->0.name@) {
                        let j = choose|j: int| 0 <= j < before.len() && before[j] == x;
                        assert(before.push(e.distribution->0.name@)[j] == x);
                    }
                } else {
                    assert(es[k] == e);
                    if !before.contains(x) {
                        assert(before.push(x)[before.len() as int] == x);
                    }
                }
            }
        }
    }
}

/// Whether the strings `v` hold `name`.
fn contains_name(v: &Vec<String>, name: &Vec<char>) -> (r: bool)
    ensures
        r == string_views(v@).contains(name@),
{
    let mut i: usize = 0;
    while i < v.len()
        invariant
            i <= v.len(),
            forall|j: int| 0 <= j < i ==> v@[j]@ != name@,
        decreases v.len() - i,
    {
        if seq_eq(&chars_of(v[i].as_str()), name) {
            assert(string_views(v@)[i as int] == name@);
            return true;
        }
        i += 1;
    }
    proof {
        if string_views(v@).contains(name@) {
            let j = choose|j: int| 0 <= j < string_views(v@).len() && string_views(v@)[j] == name@;
            assert(v@[j]@ == name@);
        }
    }
    false
}

/// `split` always gives at least one piece.
proof fn lemma_split_nonempty(s: Seq<char>, c: char)
    ensures
        split(s, c).len() > 0,
    decreases s.len(),
{
}

/// Canonical forms are built character by character: the canonical form of
/// two names written one after the other is their canonical forms one after
/// the other.
pub proof fn lemma_canonical_concat(a: Seq<char>, b: Seq<char>)
    ensures
        canonical(a + b) == canonical(a) + canonical(b),
    decreases b.len(),
{
    if b.len() == 0 {
        assert(a + b =~= a);
        assert(canonical(a) + canonical(b) =~= canonical(a));
    } else {
        lemma_canonical_concat(a, b.drop_last());
        assert((a + b).drop_last() =~= a + b.drop_last());
        assert((a + b).last() == b.last());
        if is_name_sep(b.last()) {
        } else {
            assert(canonical(a) + (canonical(b.drop_last()) + lowercase_chars(b.last())) =~= (
            canonical(a) + canonical(b.drop_last())) + lowercase_chars(b.last()));
        }
    }
}

/// What one character becomes in a canonical name: `-`, `_` and `.` are
/// dropped; an ASCII uppercase letter becomes its lowercase letter; every
/// other ASCII character (digits among them) stays as it is; any other
/// character becomes its lowercase mapping (`char::to_lowercase`).
pub proof fn lemma_canonical_char(c: char)
    ensures
        (c == '-' || c == '_' || c == '.') ==> canonical(seq![c]) == Seq::<char>::empty(),
        ('A' <= c && c <= 'Z') ==> canonical(seq![c]) == seq![((c as u32) + 32) as char],
        !(c == '-' || c == '_' || c == '.') && !('A' <= c && c <= 'Z') && (c as u32) < 128
            ==> canonical(seq![c]) == seq![c],
        (c as u32) >= 128 ==> canonical(seq![c]) == char_lowercase(c),
{
    let s = seq![c];
    assert(s.drop_last() =~= Seq::<char>::empty());
    assert(s.last() == c);
    assert(canonical(Seq::<char>::empty()) =~= Seq::<char>::empty());
    assert(Seq::<char>::empty() + lowercase_chars(c) =~= lowercase_chars(c));
    if 'A' <= c && c <= 'Z' {
        assert((c as u32) < 128);
    }
}

/// How a character counts when names are compared: every separator as `-`,
/// ASCII letters in lowercase.
pub open spec fn fold_char(c: char) -> char {
    if is_name_sep(c) {
        '-'
    } else {
        ascii_lower(c)
    }
}

/// Distribution names match alike whatever separators they are written
/// with and whatever the case of their ASCII letters: two names that become
/// equal when every `-`, `_` and `.` is written as one separator and ASCII
/// letters are lowercased have the same canonical form.
pub proof fn lemma_canonical_names_alike(a: Seq<char>, b: Seq<char>)
    requires
        a.len() == b.len(),
        forall|i: int| 0 <= i < a.len() ==> fold_char(a[i]) == fold_char(b[i]),
    ensures
        canonical(a) == canonical(b),
    decreases a.len(),
{
    if a.len() > 0 {
        lemma_canonical_names_alike(a.drop_last(), b.drop_last());
        let (x, y) = (a.last(), b.last());
        assert(fold_char(a[a.len() - 1]) == fold_char(b[b.len() - 1]));
        if !is_name_sep(x) && !is_name_sep(y) && x != y {
            // equal after ASCII folding: both ASCII letters of one letter
            assert(ascii_lower(x) == ascii_lower(y));
            assert(lowercase_chars(x) == lowercase_chars(y));
        }
    }
}

/// Separators count for nothing in a canonical name: removing them leaves
/// the canonical form as it is.
pub proof fn lemma_canonical_ignores_separators(a: Seq<char>)
    ensures
        canonical(a) == canonical(a.filter(|c: char| !is_name_sep(c))),
    decreases a.len(),
{
    let keep = |c: char| !is_name_sep(c);
    if a.len() > 0 {
        lemma_canonical_ignores_separators(a.drop_last());
        reveal(Seq::filter);
        assert(a.filter(keep) == if keep(a.last()) {
            a.drop_last().filter(keep).push(a.last())
        } else {
            a.drop_last().filter(keep)
        });
        if keep(a.last()) {
            let f = a.drop_last().filter(keep).push(a.last());
            assert(f.drop_last() =~= a.drop_last().filter(keep));
        }
    } else {
        assert(a.filter(keep) =~= a);
    }
}

} // verus!
