//! The app catalogue: what an installed app's manifest says, which
//! directory names are ids, which URLs name a file inside an app, and what
//! such a file is served as.
//!
//! An app is a directory `<apps>/<id>/` (reverse-DNS id) holding a
//! `manifest.toml` and the static files its entry needs.

use vstd::prelude::*;

use crate::text::{
    chars_of, find_char, first_match_from, pieces, push_str, split, split_range, string_of, to_lowercase,
    unicode_lower,
};

verus! {

/// A manifest as written.
#[derive(Debug)]
pub struct ManifestFile {
    pub id: String,
    pub name: String,
    pub description: String,
    pub category: Option<String>,
    pub icon: Option<String>,
    pub color: Option<String>,
    /// Name of a glyph from the shell's built-in icon set, used when the
    /// app ships no icon file.
    pub glyph: Option<String>,
    pub entry: String,
}

/// What the shell sees.
#[derive(Debug)]
pub struct App {
    pub id: String,
    pub name: String,
    pub description: String,
    pub category: Option<String>,
    /// URL of the icon, served by us, or null.
    pub icon: Option<String>,
    pub color: Option<String>,
    pub glyph: Option<String>,
    /// URL of the entry document.
    pub entry: String,
}

/// The entry document a manifest gets when it names none.
pub fn default_entry() -> (s: String)
    ensures
        s@ == "index.html"@,
{
    let mut s = String::new();
    push_str(&mut s, "index.html");
    assert(s@ =~= "index.html"@);
    s
}

pub open spec fn id_char(c: char) -> bool {
    ('a' <= c && c <= 'z') || ('0' <= c && c <= '9') || c == '-' || c == '.'
}

/// A directory name that is safe to use as an id and in a URL: 1 to 64
/// characters of `a-z0-9-.`, not starting with `-` or `.`, not ending with
/// `.`, with no `..`.
pub open spec fn valid_id_spec(id: Seq<char>) -> bool {
    &&& id.len() > 0
    &&& id.len() <= 64
    &&& forall|i: int| 0 <= i < id.len() ==> id_char(#[trigger] id[i])
    &&& id[0] != '-' && id[0] != '.'
    &&& id.last() != '.'
    &&& forall|i: int| 0 <= i < id.len() - 1 ==> !(#[trigger] id[i] == '.' && id[i + 1] == '.')
}

pub fn valid_id(id: &str) -> (r: bool)
    ensures
        r == valid_id_spec(id@),
{
    let v = chars_of(id);
    let n = v.len();
    if n == 0 || n > 64 {
        return false;
    }
    let mut i: usize = 0;
    while i < n
        invariant
            v@ == id@,
            n == v@.len(),
            0 <= i <= n,
            forall|k: int| 0 <= k < i ==> id_char(#[trigger] v@[k]),
            forall|k: int| 0 <= k < i && k < n - 1 ==> !(#[trigger] v@[k] == '.' && v@[k + 1] == '.'),
        decreases n - i,
    {
        let c = v[i];
        if !(('a' <= c && c <= 'z') || ('0' <= c && c <= '9') || c == '-' || c == '.') {
            return false;
        }
        if i + 1 < n && c == '.' && v[i + 1] == '.' {
            return false;
        }
        i = i + 1;
    }
    v[0] != '-' && v[0] != '.' && v[n - 1] != '.'
}

/// `f` with every leading `/` removed.
pub open spec fn trim_slashes(f: Seq<char>) -> Seq<char>
    decreases f.len(),
{
    if f.len() > 0 && f[0] == '/' {
        trim_slashes(f.drop_first())
    } else {
        f
    }
}

/// The URL of file `f` of app `id`.
pub open spec fn file_url(id: Seq<char>, f: Seq<char>) -> Seq<char> {
    "/apps/"@ + id + "/"@ + trim_slashes(f)
}

fn file_url_exec(id: &str, f: &str) -> (r: String)
    ensures
        r@ == file_url(id@, f@),
{
    let v = chars_of(f);
    let mut i: usize = 0;
    assert(v@.skip(0) =~= v@);
    while i < v.len() && v[i] == '/'
        invariant
            v@ == f@,
            i <= v@.len(),
            trim_slashes(f@) == trim_slashes(v@.skip(i as int)),
        decreases v@.len() - i,
    {
        assert(v@.skip(i as int).drop_first() =~= v@.skip(i + 1));
        i = i + 1;
    }
    let mut s = String::new();
    push_str(&mut s, "/apps/");
    push_str(&mut s, id);
    push_str(&mut s, "/");
    let rest = string_of(&v, i, v.len());
    assert(rest@ =~= v@.skip(i as int));
    push_str(&mut s, rest.as_str());
    assert(s@ =~= file_url(id@, f@));
    s
}

/// The entry the shell sees for a manifest found in directory `dir_id`:
/// file names become URLs under the app. A manifest whose id is not its
/// directory's is a broken package and gives nothing.
pub fn app_from_manifest(dir_id: &str, m: ManifestFile) -> (r: Option<App>)
    ensures
        match r {
            None => m.id@ != dir_id@,
            Some(a) => {
                &&& m.id@ == dir_id@
                &&& a.id@ == m.id@
                &&& a.name@ == m.name@
                &&& a.description@ == m.description@
                &&& a.category == m.category
                &&& a.color == m.color
                &&& a.glyph == m.glyph
                &&& a.entry@ == file_url(dir_id@, m.entry@)
                &&& match m.icon {
                    Some(i) => a.icon matches Some(u) && u@ == file_url(dir_id@, i@),
                    None => a.icon is None,
                }
            },
        },
{
    if !crate::text::str_eq(m.id.as_str(), dir_id) {
        return None;
    }
    let icon = match &m.icon {
        Some(i) => Some(file_url_exec(dir_id, i.as_str())),
        None => None,
    };
    let entry = file_url_exec(dir_id, m.entry.as_str());
    Some(App {
        id: m.id,
        name: m.name,
        description: m.description,
        category: m.category,
        icon,
        color: m.color,
        glyph: m.glyph,
        entry,
    })
}

/// A path segment that could leave the app's directory or is not a name.
pub open spec fn bad_segment(seg: Seq<char>) -> bool {
    seg.len() == 0 || seg == seq!['.'] || seg == seq!['.', '.'] || seg.contains('\\')
}

/// `/apps/<id>/<file>` as the app id followed by the segments of the file
/// path, or nothing when the URL is not of that form, the id is not valid,
/// or a segment could leave the directory.
pub open spec fn resolve_spec(p: Seq<char>) -> Option<Seq<Seq<char>>> {
    if !(p.len() >= 6 && p.take(6) == "/apps/"@) {
        None
    } else {
        let rest = p.skip(6);
        match first_match_from(rest, seq!['/'], 0) {
            None => None,
            Some(c) => {
                let id = rest.take(c);
                let file = rest.skip(c + 1);
                if !valid_id_spec(id) || file.len() == 0 {
                    None
                } else {
                    let segs = split(file, seq!['/']);
                    if exists|k: int| 0 <= k < segs.len() && bad_segment(#[trigger] segs[k]) {
                        None
                    } else {
                        Some(seq![id] + segs)
                    }
                }
            },
        }
    }
}

fn is_bad_segment(v: &Vec<char>, lo: usize, hi: usize) -> (r: bool)
    requires
        lo <= hi <= v@.len(),
    ensures
        r == bad_segment(v@.subrange(lo as int, hi as int)),
{
    let ghost seg = v@.subrange(lo as int, hi as int);
    if hi == lo {
        return true;
    }
    if hi - lo == 1 && v[lo] == '.' {
        assert(seg =~= seq!['.']);
        return true;
    }
    if hi - lo == 2 && v[lo] == '.' && v[lo + 1] == '.' {
        assert(seg =~= seq!['.', '.']);
        return true;
    }
    assert(seg != seq!['.']) by {
        if hi - lo == 1 { assert(seg[0] == v@[lo as int]); }
    }
    assert(seg != seq!['.', '.']) by {
        if hi - lo == 2 { assert(seg[0] == v@[lo as int]); assert(seg[1] == v@[lo + 1]); }
    }
    match find_char(v, lo, hi, '\\') {
        Some(i) => {
            proof {
                crate::text::lemma_first_match_range(seg, seq!['\\'], 0);
                assert(seg.subrange(i - lo, i - lo + 1)[0] == seg[i - lo]);
            }
            true
        },
        None => {
            proof {
                if seg.contains('\\') {
                    let k = choose|k: int| 0 <= k < seg.len() && seg[k] == '\\';
                    assert(seg.subrange(k, k + 1) =~= seq!['\\']);
                    lemma_first_match_some(seg, seq!['\\'], 0, k);
                }
            }
            false
        },
    }
}

proof fn lemma_first_match_some(s: Seq<char>, sep: Seq<char>, i: int, k: int)
    requires
        0 <= i <= k,
        matches_at_char(s, sep, k),
    ensures
        first_match_from(s, sep, i) is Some,
    decreases k - i,
{
    if crate::text::matches_at(s, sep, i) {
    } else {
        lemma_first_match_some(s, sep, i + 1, k);
    }
}

pub open spec fn matches_at_char(s: Seq<char>, sep: Seq<char>, k: int) -> bool {
    crate::text::matches_at(s, sep, k)
}

/// Resolves `/apps/<id>/<file>`: the app id and the file's path segments,
/// to be looked up inside that app's directory.
pub fn resolve(url_path: &str) -> (r: Option<Vec<String>>)
    ensures
        match r {
            Some(v) => resolve_spec(url_path@) == Some(v@.map_values(|s: String| s@)),
            None => resolve_spec(url_path@) is None,
        },
{
    proof {
        reveal_strlit("/apps/");
    }
    let v = chars_of(url_path);
    let prefix = chars_of("/apps/");
    if v.len() < 6 || !crate::text::range_eq(&v, 0, 6, &prefix) {
        proof {
            if v@.len() >= 6 {
                assert(v@.subrange(0, 6) =~= v@.take(6));
            }
        }
        return None;
    }
    assert(v@.subrange(0, 6) =~= v@.take(6));
    let ghost rest = v@.skip(6);
    assert(rest =~= v@.subrange(6, v@.len() as int));
    let n = v.len();
    let c = match find_char(&v, 6, n, '/') {
        Some(c) => c,
        None => return None,
    };
    let id = string_of(&v, 6, c);
    assert(id@ =~= rest.take(c - 6));
    assert(v@.subrange(c + 1, n as int) =~= rest.skip(c - 6 + 1));
    if !valid_id(id.as_str()) || c + 1 == n {
        return None;
    }
    let ghost file = rest.skip(c - 6 + 1);
    let segs = match segments(&v, c + 1, n) {
        Some(segs) => segs,
        None => return None,
    };
    let mut out: Vec<String> = Vec::new();
    out.push(id);
    let ghost first = out@;
    let mut segs = segs;
    out.append(&mut segs);
    assert(out@.map_values(|s: String| s@) =~= seq![rest.take(c - 6)] + split(file, seq!['/']));
    Some(out)
}

/// The `/`-separated segments of `v[lo..hi]`, or nothing when one of them
/// is bad.
fn segments(v: &Vec<char>, lo: usize, hi: usize) -> (r: Option<Vec<String>>)
    requires
        lo <= hi <= v@.len(),
    ensures
        match r {
            Some(out) => out@.map_values(|s: String| s@) == split(v@.subrange(lo as int, hi as int), seq!['/'])
                && forall|k: int| 0 <= k < out@.len() ==> !bad_segment(#[trigger] out@[k]@),
            None => exists|k: int| 0 <= k < split(v@.subrange(lo as int, hi as int), seq!['/']).len()
                && bad_segment(#[trigger] split(v@.subrange(lo as int, hi as int), seq!['/'])[k]),
        },
{
    let slash = vec!['/'];
    assert(slash@ =~= seq!['/']);
    let parts = split_range(v, lo, hi, &slash);
    let ghost segs = pieces(v@, parts@);
    let mut out: Vec<String> = Vec::new();
    let mut j: usize = 0;
    while j < parts.len()
        invariant
            segs == pieces(v@, parts@),
            segs == split(v@.subrange(lo as int, hi as int), seq!['/']),
            segs.len() == parts@.len(),
            forall|k: int| 0 <= k < parts@.len() ==> lo <= (#[trigger] parts@[k]).0 <= parts@[k].1 <= hi,
            hi <= v@.len(),
            0 <= j <= parts@.len(),
            forall|k: int| 0 <= k < j ==> !bad_segment(#[trigger] segs[k]),
            out@.map_values(|s: String| s@) == segs.take(j as int),
        decreases parts@.len() - j,
    {
        let (a, b) = parts[j];
        assert(segs[j as int] == v@.subrange(a as int, b as int));
        if is_bad_segment(v, a, b) {
            return None;
        }
        let ghost before = out@;
        out.push(string_of(v, a, b));
        assert(out@.map_values(|s: String| s@) =~= before.map_values(|s: String| s@).push(segs[j as int]));
        assert(segs.take(j + 1) =~= segs.take(j as int).push(segs[j as int]));
        j = j + 1;
    }
    assert(segs.take(j as int) =~= segs);
    assert forall|k: int| 0 <= k < out@.len() implies !bad_segment(#[trigger] out@[k]@) by {
        assert(out@.map_values(|s: String| s@)[k] == out@[k]@);
    }
    Some(out)
}

/// The extension of a file name, as `Path::extension` finds it: the text
/// after the last `.`, unless there is none, the name starts there, or the
/// name is `..`.
pub open spec fn extension(name: Seq<char>) -> Option<Seq<char>> {
    if name == seq!['.', '.'] {
        None
    } else {
        match last_dot(name, name.len() as int) {
            None => None,
            Some(i) => if i == 0 {
                None
            } else {
                Some(name.skip(i + 1))
            },
        }
    }
}

/// The last `.` before index `k`.
pub open spec fn last_dot(name: Seq<char>, k: int) -> Option<int>
    decreases k,
{
    if k <= 0 {
        None
    } else if name[k - 1] == '.' {
        Some(k - 1)
    } else {
        last_dot(name, k - 1)
    }
}

/// The media type served for an extension.
pub open spec fn media_type(ext: Option<Seq<char>>) -> Seq<char> {
    match ext {
        Some(e) => if e == "html"@ {
            "text/html; charset=utf-8"@
        } else if e == "css"@ {
            "text/css; charset=utf-8"@
        } else if e == "js"@ || e == "mjs"@ {
            "text/javascript; charset=utf-8"@
        } else if e == "json"@ {
            "application/json"@
        } else if e == "svg"@ {
            "image/svg+xml"@
        } else if e == "png"@ {
            "image/png"@
        } else if e == "webp"@ {
            "image/webp"@
        } else if e == "woff2"@ {
            "font/woff2"@
        } else if e == "txt"@ || e == "md"@ {
            "text/plain; charset=utf-8"@
        } else {
            "application/octet-stream"@
        },
        None => "application/octet-stream"@,
    }
}

/// The media type of the file named `name` (the last segment of its path).
pub fn content_type(name: &str) -> (r: &'static str)
    ensures
        r@ == media_type(extension(name@)),
{
    let v = chars_of(name);
    let n = v.len();
    if n == 2 && v[0] == '.' && v[1] == '.' {
        assert(v@ =~= seq!['.', '.']);
        return "application/octet-stream";
    }
    assert(v@ != seq!['.', '.']) by {
        if v@ == seq!['.', '.'] {
            assert(seq!['.', '.'][0] == '.' && seq!['.', '.'][1] == '.');
        }
    }
    let mut k = n;
    while k > 0 && v[k - 1] != '.'
        invariant
            v@ == name@,
            n == v@.len(),
            k <= n,
            last_dot(name@, n as int) == last_dot(name@, k as int),
        decreases k,
    {
        k = k - 1;
    }
    if k <= 1 {
        return "application/octet-stream";
    }
    let ext = string_of(&v, k, n);
    assert(ext@ =~= name@.skip(k as int));
    let e = ext.as_str();
    if crate::text::str_eq(e, "html") {
        "text/html; charset=utf-8"
    } else if crate::text::str_eq(e, "css") {
        "text/css; charset=utf-8"
    } else if crate::text::str_eq(e, "js") || crate::text::str_eq(e, "mjs") {
        "text/javascript; charset=utf-8"
    } else if crate::text::str_eq(e, "json") {
        "application/json"
    } else if crate::text::str_eq(e, "svg") {
        "image/svg+xml"
    } else if crate::text::str_eq(e, "png") {
        "image/png"
    } else if crate::text::str_eq(e, "webp") {
        "image/webp"
    } else if crate::text::str_eq(e, "woff2") {
        "font/woff2"
    } else if crate::text::str_eq(e, "txt") || crate::text::str_eq(e, "md") {
        "text/plain; charset=utf-8"
    } else {
        "application/octet-stream"
    }
}

/// `a < b` as `String`'s order has it: lexicographic by character (the
/// order of UTF-8 bytes is that of code points).
pub open spec fn lex_lt(a: Seq<char>, b: Seq<char>) -> bool
    decreases a.len(),
{
    if b.len() == 0 {
        false
    } else if a.len() == 0 {
        true
    } else if a[0] != b[0] {
        (a[0] as u32) < (b[0] as u32)
    } else {
        lex_lt(a.drop_first(), b.drop_first())
    }
}

/// The key the catalogue is ordered by.
pub open spec fn sort_key(a: App) -> Seq<char> {
    unicode_lower(a.name@)
}

/// Where `a` goes in `sorted`: before the first entry whose key is greater.
pub open spec fn insert_at(sorted: Seq<App>, a: App, i: int) -> int
    decreases sorted.len() - i,
{
    if i >= sorted.len() {
        sorted.len() as int
    } else if lex_lt(sort_key(a), sort_key(sorted[i])) {
        i
    } else {
        insert_at(sorted, a, i + 1)
    }
}

/// The apps in order of their lowercased names, apps with equal keys in
/// the order they were given (a stable sort).
pub open spec fn sorted_apps(s: Seq<App>) -> Seq<App>
    decreases s.len(),
{
    if s.len() == 0 {
        seq![]
    } else {
        let t = sorted_apps(s.drop_last());
        t.insert(insert_at(t, s.last(), 0), s.last())
    }
}

fn lt_exec(a: &Vec<char>, b: &Vec<char>) -> (r: bool)
    ensures
        r == lex_lt(a@, b@),
{
    let mut i: usize = 0;
    assert(a@.skip(0) =~= a@);
    assert(b@.skip(0) =~= b@);
    while i < a.len() && i < b.len() && a[i] == b[i]
        invariant
            i <= a@.len(),
            i <= b@.len(),
            lex_lt(a@, b@) == lex_lt(a@.skip(i as int), b@.skip(i as int)),
        decreases a@.len() - i,
    {
        assert(a@.skip(i as int).drop_first() =~= a@.skip(i + 1));
        assert(b@.skip(i as int).drop_first() =~= b@.skip(i + 1));
        i = i + 1;
    }
    if i == b.len() {
        false
    } else if i == a.len() {
        true
    } else {
        (a[i] as u32) < (b[i] as u32)
    }
}

fn key_of(a: &App) -> (k: Vec<char>)
    ensures
        k@ == sort_key(*a),
{
    let l = to_lowercase(a.name.as_str());
    chars_of(l.as_str())
}

/// The catalogue in display order: by lowercased name, ties in the order
/// found.
pub fn sort_apps(apps: Vec<App>) -> (r: Vec<App>)
    ensures
        r@ == sorted_apps(apps@),
{
    let ghost orig = apps@;
    let mut rest = apps;
    let mut out: Vec<App> = Vec::new();
    let mut k: usize = 0;
    let total = rest.len();
    assert(orig.take(0) =~= seq![]);
    assert(orig.skip(0) =~= orig);
    while rest.len() > 0
        invariant
            k <= orig.len(),
            total == orig.len(),
            rest@ == orig.skip(k as int),
            out@ == sorted_apps(orig.take(k as int)),
        decreases rest@.len(),
    {
        let a = rest.remove(0);
        let ka = key_of(&a);
        let mut p: usize = 0;
        while p < out.len() && !lt_exec(&ka, &key_of(&out[p]))
            invariant
                p <= out@.len(),
                ka@ == sort_key(a),
                insert_at(out@, a, 0) == insert_at(out@, a, p as int),
            decreases out@.len() - p,
        {
            p = p + 1;
        }
        let ghost t = out@;
        assert(orig.take(k + 1).drop_last() =~= orig.take(k as int));
        assert(orig.take(k + 1).last() == a);
        out.insert(p, a);
        assert(rest@ =~= orig.skip(k + 1));
        k = k + 1;
    }
    assert(orig.take(k as int) =~= orig);
    out
}

/// One directory of the apps directory, as read.
#[derive(Debug)]
pub struct CatalogueEntry {
    /// The directory's name; `None` when it is not UTF-8.
    pub dir_id: Option<String>,
    /// Its manifest: parsed, or the parse error; `None` when it was not
    /// read (no manifest, or a name that is not an id).
    pub manifest: Option<Result<ManifestFile, String>>,
}

/// Why an app directory gave no app, worth telling the log.
#[derive(Debug)]
pub enum Problem {
    /// The manifest does not parse; the text says why.
    Unparsable { dir_id: String, error: String },
    /// The manifest claims another id than its directory's.
    Mismatch { dir_id: String, claimed: String },
}

/// The catalogue made of a directory's entries: the apps in display order,
/// and the problems in the order their directories came.
#[derive(Debug)]
pub struct Catalogue {
    pub apps: Vec<App>,
    pub problems: Vec<Problem>,
}

/// `a` is the app a manifest `m` found in directory `dir` gives.
pub open spec fn app_of(a: App, dir: Seq<char>, m: ManifestFile) -> bool {
    &&& a.id@ == dir
    &&& a.name@ == m.name@
    &&& a.description@ == m.description@
    &&& a.category == m.category
    &&& a.color == m.color
    &&& a.glyph == m.glyph
    &&& a.entry@ == file_url(dir, m.entry@)
    &&& match m.icon {
        Some(i) => a.icon matches Some(u) && u@ == file_url(dir, i@),
        None => a.icon is None,
    }
}

/// The directory and manifest of an entry that gives an app: its name is
/// an id, its manifest parsed and claims that id.
pub open spec fn admitted(e: CatalogueEntry) -> Option<(Seq<char>, ManifestFile)> {
    match (e.dir_id, e.manifest) {
        (Some(d), Some(Ok(m))) => if valid_id_spec(d@) && m.id@ == d@ {
            Some((d@, m))
        } else {
            None
        },
        _ => None,
    }
}

/// The entries that give apps, in order.
pub open spec fn admitted_all(s: Seq<CatalogueEntry>) -> Seq<(Seq<char>, ManifestFile)>
    decreases s.len(),
{
    if s.len() == 0 {
        seq![]
    } else {
        admitted_all(s.drop_last()) + match admitted(s.last()) {
            Some(x) => seq![x],
            None => seq![],
        }
    }
}

/// A problem as (unparsable, directory, error or claimed id).
pub open spec fn problem_view(p: Problem) -> (bool, Seq<char>, Seq<char>) {
    match p {
        Problem::Unparsable { dir_id, error } => (true, dir_id@, error@),
        Problem::Mismatch { dir_id, claimed } => (false, dir_id@, claimed@),
    }
}

/// The problem an entry whose name is an id shows, if any.
pub open spec fn problem_of(e: CatalogueEntry) -> Option<(bool, Seq<char>, Seq<char>)> {
    match (e.dir_id, e.manifest) {
        (Some(d), Some(Err(x))) => if valid_id_spec(d@) {
            Some((true, d@, x@))
        } else {
            None
        },
        (Some(d), Some(Ok(m))) => if valid_id_spec(d@) && m.id@ != d@ {
            Some((false, d@, m.id@))
        } else {
            None
        },
        _ => None,
    }
}

pub open spec fn problems_all(s: Seq<CatalogueEntry>) -> Seq<(bool, Seq<char>, Seq<char>)>
    decreases s.len(),
{
    if s.len() == 0 {
        seq![]
    } else {
        problems_all(s.drop_last()) + match problem_of(s.last()) {
            Some(x) => seq![x],
            None => seq![],
        }
    }
}

/// The catalogue of an apps directory's entries: an app for each entry
/// whose name is an id and whose manifest parses and claims that id, in
/// order of lowercased names; every other entry with an id for a name and
/// a manifest read is a problem.
pub fn catalogue_of(entries: Vec<CatalogueEntry>) -> (c: Catalogue)
    ensures
        exists|found: Seq<App>|
            #![trigger sorted_apps(found)]
            {
                &&& found.len() == admitted_all(entries@).len()
                &&& forall|i: int|
                    0 <= i < found.len() ==> app_of(
                        #[trigger] found[i],
                        admitted_all(entries@)[i].0,
                        admitted_all(entries@)[i].1,
                    )
                &&& c.apps@ == sorted_apps(found)
            },
        c.problems@.map_values(|p: Problem| problem_view(p)) == problems_all(entries@),
{
    let ghost orig = entries@;
    let mut rest = entries;
    let mut found: Vec<App> = Vec::new();
    let mut problems: Vec<Problem> = Vec::new();
    let ghost mut k: int = 0;
    assert(orig.take(0) =~= seq![]);
    assert(orig.skip(0) =~= orig);
    while rest.len() > 0
        invariant
            0 <= k <= orig.len(),
            rest@ == orig.skip(k),
            found@.len() == admitted_all(orig.take(k)).len(),
            forall|i: int|
                0 <= i < found@.len() ==> app_of(
                    #[trigger] found@[i],
                    admitted_all(orig.take(k))[i].0,
                    admitted_all(orig.take(k))[i].1,
                ),
            problems@.map_values(|p: Problem| problem_view(p)) == problems_all(orig.take(k)),
        decreases rest@.len(),
    {
        let e = rest.remove(0);
        let ghost ge = e;
        assert(orig.take(k + 1).drop_last() =~= orig.take(k));
        assert(orig.take(k + 1).last() == ge);
        let ghost adm0 = admitted_all(orig.take(k));
        let ghost pr0 = problems@;
        let ghost fd0 = found@;
        match e.dir_id {
            None => {},
            Some(d) => {
                if valid_id(d.as_str()) {
                    match e.manifest {
                        None => {},
                        Some(Err(x)) => {
                            problems.push(Problem::Unparsable { dir_id: d, error: x });
                        },
                        Some(Ok(m)) => {
                            let claimed = m.id.clone();
                            let dv = d.as_str();
                            match app_from_manifest(dv, m) {
                                Some(a) => {
                                    found.push(a);
                                },
                                None => {
                                    problems.push(Problem::Mismatch { dir_id: d, claimed });
                                },
                            }
                        },
                    }
                }
            },
        }
        proof {
            assert(problems@.map_values(|p: Problem| problem_view(p)) =~= pr0.map_values(
                |p: Problem| problem_view(p),
            ) + match problem_of(ge) {
                Some(x) => seq![x],
                None => seq![],
            });
            let adm1 = admitted_all(orig.take(k + 1));
            assert(adm1 == adm0 + match admitted(ge) {
                Some(x) => seq![x],
                None => seq![],
            });
            assert forall|i: int| 0 <= i < found@.len() implies app_of(
                #[trigger] found@[i],
                adm1[i].0,
                adm1[i].1,
            ) by {
                if i < fd0.len() {
                    assert(found@[i] == fd0[i]);
                    assert(adm1[i] == adm0[i]);
                }
            }
            k = k + 1;
        }
        assert(rest@ =~= orig.skip(k));
    }
    assert(orig.take(k) =~= orig);
    let apps = sort_apps(found);
    let c = Catalogue { apps, problems };
    assert(c.apps@ == sorted_apps(found@));
    c
}

/// Entries never precede entries with a smaller key.
pub open spec fn in_order(s: Seq<App>) -> bool {
    forall|i: int, j: int| 0 <= i < j < s.len() ==> !lex_lt(sort_key(s[j]), sort_key(s[i]))
}

proof fn lemma_lex_trans(a: Seq<char>, b: Seq<char>, c: Seq<char>)
    requires
        lex_lt(a, b),
        lex_lt(b, c),
    ensures
        lex_lt(a, c),
    decreases a.len(),
{
    if a.len() > 0 && b.len() > 0 && c.len() > 0 && a[0] == b[0] && b[0] == c[0] {
        lemma_lex_trans(a.drop_first(), b.drop_first(), c.drop_first());
    }
}

proof fn lemma_lex_irrefl(a: Seq<char>)
    ensures
        !lex_lt(a, a),
    decreases a.len(),
{
    if a.len() > 0 {
        lemma_lex_irrefl(a.drop_first());
    }
}

/// `lex_lt` is `String`'s order on a proper prefix: a name sorts before
/// every longer name it begins, and never after it.
pub proof fn lemma_lex_lt_prefix(a: Seq<char>, b: Seq<char>)
    requires
        b.len() > 0,
    ensures
        lex_lt(a, a + b),
        !lex_lt(a + b, a),
    decreases a.len(),
{
    if a.len() > 0 {
        assert((a + b)[0] == a[0]);
        assert((a + b).drop_first() =~= a.drop_first() + b);
        lemma_lex_lt_prefix(a.drop_first(), b);
    } else {
        assert(a + b =~= b);
    }
}

/// `lex_lt` is `String`'s order where two names first differ: the one with
/// the smaller character there is the smaller.
pub proof fn lemma_lex_lt_first_difference(a: Seq<char>, b: Seq<char>, i: int)
    requires
        0 <= i < a.len(),
        i < b.len(),
        a.take(i) == b.take(i),
        a[i] != b[i],
    ensures
        lex_lt(a, b) == ((a[i] as u32) < (b[i] as u32)),
        lex_lt(b, a) == ((b[i] as u32) < (a[i] as u32)),
    decreases i,
{
    if i > 0 {
        assert(a[0] == a.take(i)[0]);
        assert(b[0] == b.take(i)[0]);
        assert(a.drop_first().take(i - 1) =~= a.take(i).drop_first());
        assert(b.drop_first().take(i - 1) =~= b.take(i).drop_first());
        lemma_lex_lt_first_difference(a.drop_first(), b.drop_first(), i - 1);
    }
}

/// No name sorts before itself.
pub proof fn lemma_lex_lt_irreflexive(a: Seq<char>)
    ensures
        !lex_lt(a, a),
{
    lemma_lex_irrefl(a);
}

proof fn lemma_insert_at(t: Seq<App>, a: App, i: int)
    requires
        0 <= i <= t.len(),
        forall|k: int| 0 <= k < i ==> !lex_lt(sort_key(a), #[trigger] sort_key(t[k])),
    ensures
        i <= insert_at(t, a, i) <= t.len(),
        forall|k: int| 0 <= k < insert_at(t, a, i) ==> !lex_lt(sort_key(a), #[trigger] sort_key(t[k])),
        insert_at(t, a, i) < t.len() ==> lex_lt(sort_key(a), sort_key(t[insert_at(t, a, i)])),
    decreases t.len() - i,
{
    if i < t.len() && !lex_lt(sort_key(a), sort_key(t[i])) {
        lemma_insert_at(t, a, i + 1);
    }
}

/// The catalogue order: `sorted_apps` puts the apps in order of their
/// lowercased names, and holds exactly the apps it was given.
pub proof fn lemma_sorted_apps(s: Seq<App>)
    ensures
        in_order(sorted_apps(s)),
        sorted_apps(s).to_multiset() == s.to_multiset(),
    decreases s.len(),
{
    broadcast use vstd::seq_lib::to_multiset_insert, vstd::seq_lib::to_multiset_build;
    if s.len() > 0 {
        let t = sorted_apps(s.drop_last());
        let a = s.last();
        lemma_sorted_apps(s.drop_last());
        lemma_insert_at(t, a, 0);
        let p = insert_at(t, a, 0);
        let r = t.insert(p, a);
        assert(r == sorted_apps(s));
        assert forall|i: int, j: int| 0 <= i < j < r.len() implies !lex_lt(sort_key(r[j]), sort_key(r[i])) by {
            if j < p {
                assert(r[i] == t[i] && r[j] == t[j]);
            } else if j == p {
                assert(r[i] == t[i]);
            } else if i == p {
                assert(r[j] == t[j - 1]);
                if j - 1 == p {
                    lemma_lex_irrefl(sort_key(t[p]));
                }
                assert(!lex_lt(sort_key(t[j - 1]), sort_key(t[p])));
                if lex_lt(sort_key(t[j - 1]), sort_key(a)) {
                    lemma_lex_trans(sort_key(t[j - 1]), sort_key(a), sort_key(t[p]));
                }
            } else if i < p {
                assert(r[i] == t[i] && r[j] == t[j - 1]);
            } else {
                assert(r[i] == t[i - 1] && r[j] == t[j - 1]);
            }
        }
        assert(s =~= s.drop_last().push(a));
    } else {
        assert(sorted_apps(s) =~= s);
    }
}

proof fn lemma_no_match_before_first(s: Seq<char>, c: char, i: int, j: int)
    requires
        0 <= i <= j,
        first_match_from(s, seq![c], i) matches Some(f) ==> j < f,
        first_match_from(s, seq![c], i) is None ==> j < s.len(),
    ensures
        s[j] != c,
    decreases j - i,
{
    if i + 1 > s.len() {
    } else if crate::text::matches_at(s, seq![c], i) {
        if i == j {
            assert(false);
        }
    } else {
        if i == j {
            assert(s.subrange(i, i + 1) =~= seq![s[i]]);
        } else {
            lemma_no_match_before_first(s, c, i + 1, j);
        }
    }
}

proof fn lemma_split_pieces_free_of(s: Seq<char>, c: char)
    ensures
        forall|k: int| 0 <= k < split(s, seq![c]).len() ==> !(#[trigger] split(s, seq![c])[k]).contains(c),
    decreases s.len(),
{
    let sep = seq![c];
    crate::text::lemma_first_match_range(s, sep, 0);
    match first_match_from(s, sep, 0) {
        None => {
            assert forall|j: int| 0 <= j < s.len() implies s[j] != c by {
                lemma_no_match_before_first(s, c, 0, j);
            }
        },
        Some(i) => {
            lemma_split_pieces_free_of(s.skip(i + 1), c);
            let head = s.take(i);
            assert forall|j: int| 0 <= j < head.len() implies head[j] != c by {
                lemma_no_match_before_first(s, c, 0, j);
            }
            let rest = split(s.skip(i + 1), sep);
            assert forall|k: int| 0 <= k < split(s, sep).len() implies !(#[trigger] split(s, sep)[k]).contains(c) by {
                if k == 0 {
                    assert(split(s, sep)[0] == head);
                } else {
                    assert(split(s, sep)[k] == rest[k - 1]);
                }
            }
        },
    }
}

/// `resolve` never leaves the app's directory: the id is a valid id and
/// every segment of the file path is a plain name, with no `/` or `\`,
/// and is neither `.` nor `..`.
pub proof fn lemma_resolve_stays_inside(p: Seq<char>)
    ensures
        resolve_spec(p) matches Some(v) ==> {
            &&& v.len() >= 2
            &&& valid_id_spec(v[0])
            &&& forall|k: int| 1 <= k < v.len() ==> {
                let seg = #[trigger] v[k];
                &&& seg.len() > 0
                &&& seg != seq!['.']
                &&& seg != seq!['.', '.']
                &&& !seg.contains('/')
                &&& !seg.contains('\\')
            }
        },
{
    if p.len() >= 6 && p.take(6) == "/apps/"@ {
        let rest = p.skip(6);
        if let Some(c) = first_match_from(rest, seq!['/'], 0) {
            crate::text::lemma_first_match_range(rest, seq!['/'], 0);
            let file = rest.skip(c + 1);
            lemma_split_pieces_free_of(file, '/');
            crate::text::lemma_split_nonempty(file, seq!['/']);
            if let Some(v) = resolve_spec(p) {
                let segs = split(file, seq!['/']);
                assert forall|k: int| 1 <= k < v.len() implies {
                    let seg = #[trigger] v[k];
                    &&& seg.len() > 0
                    &&& seg != seq!['.']
                    &&& seg != seq!['.', '.']
                    &&& !seg.contains('/')
                    &&& !seg.contains('\\')
                } by {
                    assert(v[k] == segs[k - 1]);
                    assert(!bad_segment(segs[k - 1]));
                }
            }
        }
    }
}

} // verus!
