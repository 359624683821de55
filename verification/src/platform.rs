//! The platform-specific decisions behind each OS adapter: which paths the
//! deletion allowlist must always reject, and how the raw listing of
//! installed applications (bundle paths on macOS, uninstall registry entries
//! on Windows) becomes the user-facing, case-insensitively sorted app list.
//! Reading the filesystem, the registry or the environment, and moving files
//! to the trash, is done by the caller.

use vstd::prelude::*;
use crate::model::InstalledApp;
use crate::path::{FsPath, PathSeq, file_name_of, path_starts_with};
use crate::text::{
    all_ascii, ascii_lower, ascii_lower_of, chars_of, contains_chars, contains_seq, lowercase,
    push_char, starts_with_chars, starts_with_seq, unicode_lowercase,
};

verus! {

/// A path given as a root and a list of components, as text.
pub open spec fn literal_path(root: Seq<char>, parts: Seq<Seq<char>>) -> PathSeq {
    seq![root] + parts
}

/// The Unix root directory `/`.
fn unix_root() -> (p: FsPath)
    ensures
        p@ == seq!["/"@],
{
    let p = FsPath { root: String::from_str("/"), parts: Vec::new() };
    assert(p@ =~= seq!["/"@]);
    p
}

/// `base` with one more component.
fn child(base: FsPath, name: &str) -> (p: FsPath)
    ensures
        p@ == base@.push(name@),
{
    let mut parts = base.parts;
    let ghost before = parts@;
    parts.push(String::from_str(name));
    let p = FsPath { root: base.root, parts };
    assert(p@ =~= base@.push(name@));
    p
}

/// Whether `p` lies inside one of the `roots` (component-wise).
pub open spec fn under_any(p: PathSeq, roots: Seq<PathSeq>) -> bool {
    exists|i: int| 0 <= i < roots.len() && path_starts_with(p, #[trigger] roots[i])
}

fn under_any_exec(p: &FsPath, roots: &Vec<FsPath>) -> (r: bool)
    ensures
        r == under_any(p@, Seq::new(roots@.len(), |i: int| roots@[i]@)),
{
    let ghost rs = Seq::new(roots@.len(), |i: int| roots@[i]@);
    let mut i: usize = 0;
    while i < roots.len()
        invariant
            i <= roots@.len(),
            rs == Seq::new(roots@.len(), |i: int| roots@[i]@),
            forall|k: int| 0 <= k < i ==> !path_starts_with(p@, #[trigger] rs[k]),
        decreases roots@.len() - i,
    {
        if p.starts_with(&roots[i]) {
            proof {
                assert(path_starts_with(p@, rs[i as int]));
            }
            return true;
        }
        i = i + 1;
    }
    false
}

/// The Linux system roots no cleanup may touch.
pub open spec fn linux_protected_roots() -> Seq<PathSeq> {
    seq![
        literal_path("/"@, seq!["proc"@]),
        literal_path("/"@, seq!["sys"@]),
        literal_path("/"@, seq!["boot"@]),
    ]
}

/// The macOS system roots no cleanup may touch.
pub open spec fn macos_protected_roots() -> Seq<PathSeq> {
    seq![
        literal_path("/"@, seq!["System"@]),
        literal_path("/"@, seq!["private"@, "var"@, "db"@]),
        literal_path("/"@, seq!["Library"@, "Apple"@]),
        literal_path("/"@, seq!["usr"@]),
        literal_path("/"@, seq!["bin"@]),
        literal_path("/"@, seq!["sbin"@]),
        literal_path("/"@, seq!["dev"@]),
        literal_path("/"@, seq!["Volumes"@, "Preboot"@]),
    ]
}

/// Linux adapter (not a shipping target; proves the seam is cross-platform).
pub struct LinuxAdapter;

impl LinuxAdapter {
    /// Whether `path` is inside `/proc`, `/sys` or `/boot`.
    pub fn is_protected_root(&self, path: &FsPath) -> (r: bool)
        ensures
            r == under_any(path@, linux_protected_roots()),
    {
        let mut roots: Vec<FsPath> = Vec::new();
        roots.push(child(unix_root(), "proc"));
        roots.push(child(unix_root(), "sys"));
        roots.push(child(unix_root(), "boot"));
        let r = under_any_exec(path, &roots);
        proof {
            assert(Seq::new(roots@.len(), |i: int| roots@[i]@) =~~= linux_protected_roots());
        }
        r
    }
}

/// macOS adapter.
pub struct MacOSAdapter;

impl MacOSAdapter {
    /// Whether `path` is inside one of the macOS system roots.
    pub fn is_protected_root(&self, path: &FsPath) -> (r: bool)
        ensures
            r == under_any(path@, macos_protected_roots()),
    {
        let mut roots: Vec<FsPath> = Vec::new();
        roots.push(child(unix_root(), "System"));
        roots.push(child(child(child(unix_root(), "private"), "var"), "db"));
        roots.push(child(child(unix_root(), "Library"), "Apple"));
        roots.push(child(unix_root(), "usr"));
        roots.push(child(unix_root(), "bin"));
        roots.push(child(unix_root(), "sbin"));
        roots.push(child(unix_root(), "dev"));
        roots.push(child(child(unix_root(), "Volumes"), "Preboot"));
        let r = under_any_exec(path, &roots);
        proof {
            assert(Seq::new(roots@.len(), |i: int| roots@[i]@) =~~= macos_protected_roots());
        }
        r
    }

    /// The applications among the entries of `/Applications`: every `*.app`
    /// bundle, named by its file stem, sorted by lowercased name.
    pub fn apps_from_bundles(&self, entries: &[FsPath]) -> (r: Vec<InstalledApp>)
        ensures
            exists|found: Seq<InstalledApp>| bundle_apps_match(found, entries@) && r@ == sort_apps(found),
    {
        let found = bundle_apps(entries);
        let r = sort_apps_exec(found);
        r
    }
}

/// The applications found among `/Applications` entries, in entry order.
pub fn bundle_apps(entries: &[FsPath]) -> (found: Vec<InstalledApp>)
    ensures
        bundle_apps_match(found@, entries@),
{
    let mut found: Vec<InstalledApp> = Vec::new();
    let mut i: usize = 0;
    while i < entries.len()
        invariant
            i <= entries@.len(),
            bundle_apps_match(found@, entries@.take(i as int)),
        decreases entries@.len() - i,
    {
        let p = &entries[i];
        proof {
            assert(entries@.take(i + 1).drop_last() =~= entries@.take(i as int));
            assert(entries@.take(i + 1).last() == *p);
        }
        match bundle_app(p) {
            Some(app) => {
                let ghost before = found@;
                found.push(app);
                proof {
                    assert(found@.drop_last() =~= before);
                }
            },
            None => {},
        }
        i = i + 1;
    }
    proof {
        assert(entries@.take(entries@.len() as int) =~= entries@);
    }
    found
}

/// The application bundle path `p` stands for, if it is one.
fn bundle_app(p: &FsPath) -> (r: Option<InstalledApp>)
    ensures
        r is Some <==> is_bundle(*p),
        r matches Some(a) ==> is_bundle_app(a, *p),
{
    let name = match p.file_name() {
        Some(n) => n,
        None => return None,
    };
    let chars = chars_of(name.as_str());
    let dot = match last_dot_exec(&chars) {
        Some(k) => k,
        None => return None,
    };
    proof {
        lemma_last_dot_range(chars@);
    }
    if dot == 0 {
        return None;
    }
    let ext = String::from_str("app");
    let ext_chars = chars_of(ext.as_str());
    let n = chars.len();
    if n - (dot + 1) != 3 || chars[dot + 1] != 'a' || chars[dot + 2] != 'p' || chars[dot + 3] != 'p' {
        proof {
            reveal_strlit("app");
            let e = chars@.skip(dot + 1);
            if e == "app"@ {
                assert(e.len() == 3);
                assert(e[0] == chars@[dot + 1]);
                assert(e[1] == chars@[dot + 2]);
                assert(e[2] == chars@[dot + 3]);
            }
            assert(extension_of(chars@) == Some(e));
        }
        return None;
    }
    proof {
        reveal_strlit("app");
        assert(chars@.skip(dot + 1) =~= "app"@);
    }
    let mut stem = String::new();
    let mut i: usize = 0;
    while i < dot
        invariant
            i <= dot,
            dot < chars@.len(),
            stem@ == chars@.take(i as int),
        decreases dot - i,
    {
        push_char(&mut stem, chars[i]);
        proof {
            assert(stem@ =~= chars@.take(i + 1));
        }
        i = i + 1;
    }
    let location = path_text_exec(p, '/');
    Some(
        InstalledApp {
            name: stem,
            publisher: None,
            install_location: Some(location),
            estimated_size_bytes: None,
            uninstall_command: None,
        },
    )
}

proof fn lemma_last_dot_range(name: Seq<char>)
    ensures
        last_dot(name) matches Some(k) ==> 0 <= k < name.len() && name[k] == '.',
    decreases name.len(),
{
    if name.len() > 0 && name.last() != '.' {
        lemma_last_dot_range(name.drop_last());
    }
}

/// Computes `last_dot`.
fn last_dot_exec(name: &Vec<char>) -> (r: Option<usize>)
    ensures
        match r {
            Some(k) => last_dot(name@) == Some(k as int),
            None => last_dot(name@) is None,
        },
{
    let mut i = name.len();
    proof {
        assert(name@.take(i as int) =~= name@);
    }
    while i > 0
        invariant
            i <= name@.len(),
            last_dot(name@) == last_dot(name@.take(i as int)),
        decreases i,
    {
        proof {
            assert(name@.take(i as int).drop_last() =~= name@.take(i - 1));
            assert(name@.take(i as int).last() == name@[i - 1]);
        }
        if name[i - 1] == '.' {
            return Some(i - 1);
        }
        i = i - 1;
    }
    None
}

/// Computes `path_text`.
pub fn path_text_exec(p: &FsPath, sep: char) -> (r: String)
    ensures
        r@ == path_text(p@, sep),
{
    let mut out = p.root.clone();
    let n = p.parts.len();
    let ghost rest = p@.drop_first();
    proof {
        assert(rest =~= Seq::new(p.parts@.len(), |i: int| p.parts@[i]@));
        assert(rest.take(0) =~= Seq::<Seq<char>>::empty());
    }
    let mut i: usize = 0;
    while i < n
        invariant
            n == p.parts@.len(),
            rest == p@.drop_first(),
            rest.len() == n,
            forall|k: int| 0 <= k < n ==> #[trigger] rest[k] == p.parts@[k]@,
            i <= n,
            out@ == p.root@ + joined(rest.take(i as int), sep),
        decreases n - i,
    {
        proof {
            assert(rest.take(i + 1).drop_last() =~= rest.take(i as int));
            assert(rest.take(i + 1).last() == p.parts@[i as int]@);
        }
        if i > 0 {
            push_char(&mut out, sep);
        }
        out.append(p.parts[i].as_str());
        proof {
            if i == 0 {
                assert(joined(rest.take(1), sep) == rest[0]);
            }
            assert(out@ =~= p.root@ + joined(rest.take(i + 1), sep));
        }
        i = i + 1;
    }
    proof {
        assert(rest.take(n as int) =~= rest);
        assert(p@[0] == p.root@);
    }
    out
}

/// Where the last `.` of a file name is, if any.
pub open spec fn last_dot(name: Seq<char>) -> Option<int>
    decreases name.len(),
{
    if name.len() == 0 {
        None
    } else if name.last() == '.' {
        Some(name.len() - 1)
    } else {
        last_dot(name.drop_last())
    }
}

/// `Path::file_stem` of a file name: the part before the last `.`, or the whole
/// name when it has no `.` except possibly a leading one.
pub open spec fn stem_of(name: Seq<char>) -> Seq<char> {
    match last_dot(name) {
        Some(k) => if k == 0 { name } else { name.take(k) },
        None => name,
    }
}

/// `Path::extension` of a file name: the part after the last `.`, unless that
/// `.` is missing or leads the name.
pub open spec fn extension_of(name: Seq<char>) -> Option<Seq<char>> {
    match last_dot(name) {
        Some(k) => if k == 0 { None } else { Some(name.skip(k + 1)) },
        None => None,
    }
}

/// Text of a Unix path: the root followed by the components joined with `/`.
pub open spec fn joined(parts: Seq<Seq<char>>, sep: char) -> Seq<char>
    decreases parts.len(),
{
    if parts.len() == 0 {
        seq![]
    } else if parts.len() == 1 {
        parts[0]
    } else {
        joined(parts.drop_last(), sep).push(sep) + parts.last()
    }
}

/// A path as text: its root, then its components joined with `sep`.
pub open spec fn path_text(p: PathSeq, sep: char) -> Seq<char> {
    p[0] + joined(p.drop_first(), sep)
}

/// Whether `app` is the application found at bundle path `p`: named by the
/// bundle's file stem, located at the bundle, nothing else known.
pub open spec fn is_bundle_app(app: InstalledApp, p: FsPath) -> bool {
    &&& file_name_of(p@) matches Some(name)
    &&& app.name@ == stem_of(name)
    &&& app.publisher is None
    &&& app.install_location matches Some(loc)
    &&& loc@ == path_text(p@, '/')
    &&& app.estimated_size_bytes is None
    &&& app.uninstall_command is None
}

/// Whether bundle path `p` names an application: a `.app` extension and a
/// non-empty stem.
pub open spec fn is_bundle(p: FsPath) -> bool {
    &&& file_name_of(p@) matches Some(name)
    &&& extension_of(name) == Some("app"@)
    &&& stem_of(name).len() > 0
}

/// `apps` are the applications found among `entries`, in order.
pub open spec fn bundle_apps_match(apps: Seq<InstalledApp>, entries: Seq<FsPath>) -> bool
    decreases entries.len(),
{
    if entries.len() == 0 {
        apps.len() == 0
    } else if is_bundle(entries.last()) {
        apps.len() > 0 && is_bundle_app(apps.last(), entries.last()) && bundle_apps_match(
            apps.drop_last(),
            entries.drop_last(),
        )
    } else {
        bundle_apps_match(apps, entries.drop_last())
    }
}

/// The key applications are sorted by: the lowercased name.
pub open spec fn name_key(app: InstalledApp) -> Seq<char> {
    unicode_lowercase(app.name@)
}

/// Lexicographic order of texts by character code (the order of `String`).
pub open spec fn text_le(a: Seq<char>, b: Seq<char>) -> bool
    decreases a.len(),
{
    if a.len() == 0 {
        true
    } else if b.len() == 0 {
        false
    } else if a[0] != b[0] {
        (a[0] as u32) < (b[0] as u32)
    } else {
        text_le(a.drop_first(), b.drop_first())
    }
}

/// Inserts `x` into a sorted list after every entry whose key is not greater.
pub open spec fn insert_by_name(sorted: Seq<InstalledApp>, x: InstalledApp) -> Seq<InstalledApp>
    decreases sorted.len(),
{
    if sorted.len() == 0 {
        seq![x]
    } else if text_le(name_key(sorted.last()), name_key(x)) {
        sorted.push(x)
    } else {
        insert_by_name(sorted.drop_last(), x).push(sorted.last())
    }
}

/// Stable sort by lowercased name: apps whose names compare equal keep their order.
pub open spec fn sort_apps(apps: Seq<InstalledApp>) -> Seq<InstalledApp>
    decreases apps.len(),
{
    if apps.len() == 0 {
        seq![]
    } else {
        insert_by_name(sort_apps(apps.drop_last()), apps.last())
    }
}

/// Computes `text_le`.
fn text_le_exec(a: &Vec<char>, b: &Vec<char>) -> (r: bool)
    ensures
        r == text_le(a@, b@),
{
    let mut i: usize = 0;
    proof {
        assert(a@.skip(0) =~= a@);
        assert(b@.skip(0) =~= b@);
    }
    while i < a.len() && i < b.len()
        invariant
            i <= a@.len(),
            i <= b@.len(),
            forall|k: int| 0 <= k < i ==> a@[k] == b@[k],
            text_le(a@, b@) == text_le(a@.skip(i as int), b@.skip(i as int)),
        decreases a@.len() - i,
    {
        if a[i] != b[i] {
            proof {
                assert(a@.skip(i as int)[0] == a@[i as int]);
                assert(b@.skip(i as int)[0] == b@[i as int]);
            }
            return (a[i] as u32) < (b[i] as u32);
        }
        proof {
            assert(a@.skip(i as int).drop_first() =~= a@.skip(i + 1));
            assert(b@.skip(i as int).drop_first() =~= b@.skip(i + 1));
        }
        i = i + 1;
    }
    i == a.len()
}

proof fn lemma_insert_by_name_at(sorted: Seq<InstalledApp>, x: InstalledApp, pos: int)
    requires
        0 <= pos <= sorted.len(),
        forall|k: int| pos <= k < sorted.len() ==> !text_le(name_key(#[trigger] sorted[k]), name_key(x)),
        pos == 0 || text_le(name_key(sorted[pos - 1]), name_key(x)),
    ensures
        insert_by_name(sorted, x) == sorted.take(pos) + seq![x] + sorted.skip(pos),
    decreases sorted.len(),
{
    if sorted.len() == 0 {
        assert(sorted.take(pos) + seq![x] + sorted.skip(pos) =~= seq![x]);
    } else if text_le(name_key(sorted.last()), name_key(x)) {
        assert(pos == sorted.len());
        assert(sorted.take(pos) + seq![x] + sorted.skip(pos) =~= sorted.push(x));
    } else {
        let r = sorted.drop_last();
        lemma_insert_by_name_at(r, x, pos);
        assert(sorted.take(pos) + seq![x] + sorted.skip(pos) =~= (r.take(pos) + seq![x] + r.skip(
            pos,
        )).push(sorted.last()));
    }
}

/// Sorts applications by lowercased name, keeping the order of equal names.
pub fn sort_apps_exec(apps: Vec<InstalledApp>) -> (r: Vec<InstalledApp>)
    ensures
        r@ == sort_apps(apps@),
{
    let ghost all = apps@;
    let mut rest = apps;
    let ghost mut taken: Seq<InstalledApp> = seq![];
    let mut sorted: Vec<InstalledApp> = Vec::new();
    let mut keys: Vec<Vec<char>> = Vec::new();
    while rest.len() > 0
        invariant
            all == taken + rest@,
            sorted@ == sort_apps(taken),
            keys@.len() == sorted@.len(),
            forall|k: int| 0 <= k < keys@.len() ==> #[trigger] keys@[k]@ == name_key(sorted@[k]),
        decreases rest@.len(),
    {
        let ghost rest_before = rest@;
        let x = rest.remove(0);
        let key_text = lowercase(x.name.as_str());
        let key = chars_of(key_text.as_str());
        let mut pos = sorted.len();
        while pos > 0 && !text_le_exec(&keys[pos - 1], &key)
            invariant
                pos <= sorted@.len(),
                keys@.len() == sorted@.len(),
                key@ == name_key(x),
                forall|k: int| 0 <= k < keys@.len() ==> #[trigger] keys@[k]@ == name_key(sorted@[k]),
                forall|k: int| pos <= k < sorted@.len() ==> !text_le(name_key(#[trigger] sorted@[k]), name_key(x)),
            decreases pos,
        {
            pos = pos - 1;
        }
        proof {
            lemma_insert_by_name_at(sorted@, x, pos as int);
            assert(taken.push(x).drop_last() =~= taken);
            assert(all =~= taken.push(x) + rest@);
            taken = taken.push(x);
        }
        let ghost before = sorted@;
        let ghost before_keys = keys@;
        sorted.insert(pos, x);
        keys.insert(pos, key);
        proof {
            assert(sorted@ =~= before.take(pos as int) + seq![x] + before.skip(pos as int));
            assert forall|k: int| 0 <= k < keys@.len() implies #[trigger] keys@[k]@ == name_key(sorted@[k]) by {
                if k < pos {
                    assert(keys@[k] == before_keys[k]);
                } else if k > pos {
                    assert(keys@[k] == before_keys[k - 1]);
                }
            }
        }
    }
    proof {
        assert(taken =~= all);
    }
    sorted
}

/// `char::is_whitespace`: the Unicode `White_Space` characters.
pub open spec fn is_space(c: char) -> bool {
    ||| ('\u{9}' <= c && c <= '\u{d}')
    ||| c == ' '
    ||| c == '\u{85}'
    ||| c == '\u{a0}'
    ||| c == '\u{1680}'
    ||| ('\u{2000}' <= c && c <= '\u{200a}')
    ||| c == '\u{2028}'
    ||| c == '\u{2029}'
    ||| c == '\u{202f}'
    ||| c == '\u{205f}'
    ||| c == '\u{3000}'
}

/// Whether `trim()` of the text leaves nothing: every character is white space.
pub open spec fn is_blank(s: Seq<char>) -> bool {
    forall|i: int| 0 <= i < s.len() ==> is_space(#[trigger] s[i])
}

/// Computes `is_space`.
pub fn is_space_exec(c: char) -> (r: bool)
    ensures
        r == is_space(c),
{
    ('\u{9}' <= c && c <= '\u{d}') || c == ' ' || c == '\u{85}' || c == '\u{a0}' || c == '\u{1680}'
        || ('\u{2000}' <= c && c <= '\u{200a}') || c == '\u{2028}' || c == '\u{2029}' || c
        == '\u{202f}' || c == '\u{205f}' || c == '\u{3000}'
}

/// Computes `is_blank`.
pub fn is_blank_exec(s: &str) -> (r: bool)
    ensures
        r == is_blank(s@),
{
    let n = s.unicode_len();
    let mut i: usize = 0;
    while i < n
        invariant
            n == s@.len(),
            i <= n,
            forall|k: int| 0 <= k < i ==> is_space(#[trigger] s@[k]),
        decreases n - i,
    {
        if !is_space_exec(s.get_char(i)) {
            return false;
        }
        i = i + 1;
    }
    true
}

/// The ASCII lowercase of a list of characters.
fn ascii_lower_vec(v: &Vec<char>) -> (r: Vec<char>)
    ensures
        r@ == ascii_lower(v@),
{
    let mut out: Vec<char> = Vec::new();
    let mut i: usize = 0;
    while i < v.len()
        invariant
            i <= v@.len(),
            out@.len() == i,
            forall|k: int| 0 <= k < i ==> out@[k] == crate::text::ascii_lower_char(v@[k]),
        decreases v@.len() - i,
    {
        out.push(ascii_lower_of(v[i]));
        i = i + 1;
    }
    assert(out@ =~= ascii_lower(v@));
    out
}

/// The Windows install directory: `SystemRoot` when it is set, else `C:\Windows`.
pub open spec fn windows_dir(system_root: Option<Seq<char>>) -> Seq<char> {
    ascii_lower(
        match system_root {
            Some(r) => r,
            None => "C:\\Windows"@,
        },
    )
}

/// Whether a Windows path must never be cleaned up, from its components `p`
/// and its text as written (`text`, compared ASCII-lowercased).
pub open spec fn windows_protected(p: PathSeq, text: Seq<char>, system_root: Option<Seq<char>>) -> bool {
    let s = ascii_lower(text);
    ||| (file_name_of(p) matches Some(n) && (ascii_lower(n) == "pagefile.sys"@ || ascii_lower(n)
        == "hiberfil.sys"@ || ascii_lower(n) == "swapfile.sys"@))
    ||| contains_seq(s, "\\system volume information"@)
    ||| contains_seq(s, "\\$recycle.bin"@)
    ||| starts_with_seq(s, windows_dir(system_root))
    ||| contains_seq(s, ":\\programdata\\microsoft\\windows"@)
}

/// Windows adapter.
pub struct WindowsAdapter;

/// One application's values from an uninstall registry key, as read.
#[derive(Debug, Clone)]
pub struct UninstallEntry {
    pub system_component: Option<u32>,
    pub display_name: Option<String>,
    pub publisher: Option<String>,
    pub install_location: Option<String>,
    pub estimated_size_kb: Option<u32>,
    pub uninstall_string: Option<String>,
}

/// Whether an uninstall entry is a user-facing application: not a system
/// component, and with a display name that is not blank.
pub open spec fn is_listed(e: UninstallEntry) -> bool {
    &&& e.system_component != Some(1u32)
    &&& e.display_name matches Some(n)
    &&& !is_blank(n@)
}

/// Whether `app` is the application an uninstall entry describes.
pub open spec fn is_entry_app(app: InstalledApp, e: UninstallEntry) -> bool {
    &&& e.display_name == Some(app.name)
    &&& app.publisher == e.publisher
    &&& app.install_location == match e.install_location {
        Some(l) => if is_blank(l@) { None } else { Some(l) },
        None => None,
    }
    &&& app.estimated_size_bytes == match e.estimated_size_kb {
        Some(kb) => Some((kb as u64 * 1024) as u64),
        None => None,
    }
    &&& app.uninstall_command == e.uninstall_string
}

/// `apps` are the applications the listed entries describe, in order.
pub open spec fn entry_apps_match(apps: Seq<InstalledApp>, entries: Seq<UninstallEntry>) -> bool
    decreases entries.len(),
{
    if entries.len() == 0 {
        apps.len() == 0
    } else if is_listed(entries.last()) {
        apps.len() > 0 && is_entry_app(apps.last(), entries.last()) && entry_apps_match(
            apps.drop_last(),
            entries.drop_last(),
        )
    } else {
        entry_apps_match(apps, entries.drop_last())
    }
}

/// Drops every application whose name equals the one before it.
pub open spec fn dedup_names(apps: Seq<InstalledApp>) -> Seq<InstalledApp>
    decreases apps.len(),
{
    if apps.len() <= 1 {
        apps
    } else if apps.last().name@ == apps[apps.len() - 2].name@ {
        dedup_names(apps.drop_last())
    } else {
        dedup_names(apps.drop_last()).push(apps.last())
    }
}

proof fn lemma_dedup_last(apps: Seq<InstalledApp>)
    requires
        apps.len() > 0,
    ensures
        dedup_names(apps).len() > 0,
        dedup_names(apps).last().name@ == apps.last().name@,
    decreases apps.len(),
{
    if apps.len() > 1 && apps.last().name@ == apps[apps.len() - 2].name@ {
        lemma_dedup_last(apps.drop_last());
    }
}

impl WindowsAdapter {
    /// Whether `path` must never be cleaned up: a paging, hibernation or swap
    /// file anywhere, anything under `System Volume Information` or a recycle
    /// bin, anything under the Windows directory (`system_root`, the value of
    /// the `SystemRoot` variable, or `C:\Windows` when it is unset), or
    /// anything under a drive's `ProgramData\Microsoft\Windows`. The name checks
    /// read `path`'s components; the others read `text`, the same path as
    /// written, so that separators are compared as they were given.
    pub fn is_protected_root(&self, path: &FsPath, text: &str, system_root: Option<&str>) -> (r: bool)
        ensures
            r == windows_protected(
                path@,
                text@,
                match system_root {
                    Some(s) => Some(s@),
                    None => None,
                },
            ),
    {
        let ghost sr = match system_root {
            Some(s) => Some(s@),
            None => None,
        };
        let s = ascii_lower_vec(&chars_of(text));
        let by_name = match path.file_name() {
            Some(n) => {
                let name = ascii_lower_vec(&chars_of(n.as_str()));
                let pf = chars_of("pagefile.sys");
                let hf = chars_of("hiberfil.sys");
                let sf = chars_of("swapfile.sys");
                name.len() == pf.len() && starts_with_chars(&name, &pf)
                    || name.len() == hf.len() && starts_with_chars(&name, &hf)
                    || name.len() == sf.len() && starts_with_chars(&name, &sf)
            },
            None => false,
        };
        proof {
            match file_name_of(path@) {
                Some(n) => {
                    let l = ascii_lower(n);
                    assert(starts_with_seq(l, "pagefile.sys"@) && l.len() == "pagefile.sys"@.len()
                        <==> l == "pagefile.sys"@) by {
                        if l.len() == "pagefile.sys"@.len() {
                            assert(l.subrange(0, l.len() as int) =~= l);
                        }
                    }
                    assert(starts_with_seq(l, "hiberfil.sys"@) && l.len() == "hiberfil.sys"@.len()
                        <==> l == "hiberfil.sys"@) by {
                        if l.len() == "hiberfil.sys"@.len() {
                            assert(l.subrange(0, l.len() as int) =~= l);
                        }
                    }
                    assert(starts_with_seq(l, "swapfile.sys"@) && l.len() == "swapfile.sys"@.len()
                        <==> l == "swapfile.sys"@) by {
                        if l.len() == "swapfile.sys"@.len() {
                            assert(l.subrange(0, l.len() as int) =~= l);
                        }
                    }
                },
                None => {},
            }
        }
        if by_name {
            return true;
        }
        if contains_chars(&s, &chars_of("\\system volume information")) || contains_chars(
            &s,
            &chars_of("\\$recycle.bin"),
        ) {
            return true;
        }
        let windir = match system_root {
            Some(r) => ascii_lower_vec(&chars_of(r)),
            None => ascii_lower_vec(&chars_of("C:\\Windows")),
        };
        if starts_with_chars(&s, &windir) {
            return true;
        }
        contains_chars(&s, &chars_of(":\\programdata\\microsoft\\windows"))
    }

    /// The application list from the uninstall registry entries: listed
    /// entries only, sorted by lowercased name, with adjacent duplicate names
    /// dropped.
    pub fn apps_from_uninstall_entries(&self, entries: &[UninstallEntry]) -> (r: Vec<InstalledApp>)
        ensures
            exists|found: Seq<InstalledApp>|
                entry_apps_match(found, entries@) && r@ == dedup_names(sort_apps(found)),
    {
        let found = entry_apps(entries);
        let sorted = sort_apps_exec(found);
        dedup_by_name(sorted)
    }
}

/// A separate copy of an optional string.
fn copy_text(s: &Option<String>) -> (r: Option<String>)
    ensures
        r == *s,
{
    match s {
        Some(v) => Some(v.clone()),
        None => None,
    }
}

/// The applications the listed uninstall entries describe, in entry order.
pub fn entry_apps(entries: &[UninstallEntry]) -> (found: Vec<InstalledApp>)
    ensures
        entry_apps_match(found@, entries@),
{
    let mut found: Vec<InstalledApp> = Vec::new();
    let mut i: usize = 0;
    while i < entries.len()
        invariant
            i <= entries@.len(),
            entry_apps_match(found@, entries@.take(i as int)),
        decreases entries@.len() - i,
    {
        let e = &entries[i];
        proof {
            assert(entries@.take(i + 1).drop_last() =~= entries@.take(i as int));
            assert(entries@.take(i + 1).last() == *e);
        }
        let component = match e.system_component {
            Some(v) => v,
            None => 0,
        };
        if component != 1 {
            match &e.display_name {
                Some(name) => {
                    if !is_blank_exec(name.as_str()) {
                        let install_location = match &e.install_location {
                            Some(l) => if is_blank_exec(l.as_str()) {
                                None
                            } else {
                                Some(l.clone())
                            },
                            None => None,
                        };
                        let estimated_size_bytes = match e.estimated_size_kb {
                            Some(kb) => Some(kb as u64 * 1024),
                            None => None,
                        };
                        let app = InstalledApp {
                            name: name.clone(),
                            publisher: copy_text(&e.publisher),
                            install_location,
                            estimated_size_bytes,
                            uninstall_command: copy_text(&e.uninstall_string),
                        };
                        let ghost before = found@;
                        found.push(app);
                        proof {
                            assert(found@.drop_last() =~= before);
                        }
                    }
                },
                None => {},
            }
        }
        i = i + 1;
    }
    proof {
        assert(entries@.take(entries@.len() as int) =~= entries@);
    }
    found
}

/// Drops every application whose name equals the one before it.
pub fn dedup_by_name(apps: Vec<InstalledApp>) -> (r: Vec<InstalledApp>)
    ensures
        r@ == dedup_names(apps@),
{
    let ghost all = apps@;
    let mut out: Vec<InstalledApp> = Vec::new();
    let mut i: usize = 0;
    let n = apps.len();
    let mut rest = apps;
    while i < n
        invariant
            n == all.len(),
            i <= n,
            rest@ == all.skip(i as int),
            out@ == dedup_names(all.take(i as int)),
        decreases n - i,
    {
        let x = rest.remove(0);
        proof {
            assert(x == all[i as int]);
            assert(all.take(i + 1).drop_last() =~= all.take(i as int));
            assert(all.take(i + 1).last() == x);
            assert(rest@ =~= all.skip(i + 1));
            if i > 0 {
                lemma_dedup_last(all.take(i as int));
                assert(all.take(i + 1)[i - 1] == all[i - 1]);
            }
        }
        let keep = out.len() == 0 || out[out.len() - 1].name != x.name;
        proof {
            if i == 0 {
                assert(out@.len() == 0);
            } else {
                assert(out@.len() > 0);
            }
        }
        if keep {
            out.push(x);
        }
        i = i + 1;
    }
    proof {
        assert(all.take(n as int) =~= all);
    }
    out
}

} // verus!
