//! Associates installed applications with their supporting storage.
//! Confidence reflects how specifically an aggregated directory's name matches
//! the application's name: an exact normalized match is high confidence, a
//! substring match (either way) is medium, and anything weaker is not surfaced
//! at all. Never delete on a guess.

use vstd::prelude::*;
use crate::model::{AppAssociation, DirectoryAggregate, InstalledApp, MatchConfidence};
use crate::path::{FsPath, PathSeq, file_name_of};
use crate::text::{
    char_is_alphanumeric, chars_of, contains_chars, contains_seq, is_alphanumeric, lowercase,
    push_char, unicode_lowercase, all_ascii, ascii_lower, ascii_lower_char, is_ascii_alnum, is_ascii_char,
};

verus! {

/// A name reduced to what identifies it: its letters and digits, lowercased.
pub open spec fn normalized(s: Seq<char>) -> Seq<char> {
    unicode_lowercase(s.filter(|c: char| char_is_alphanumeric(c)))
}

proof fn lemma_filter_push(s: Seq<char>, c: char)
    ensures
        s.push(c).filter(|c: char| char_is_alphanumeric(c)) == if char_is_alphanumeric(c) {
            s.filter(|c: char| char_is_alphanumeric(c)).push(c)
        } else {
            s.filter(|c: char| char_is_alphanumeric(c))
        },
{
    reveal(Seq::filter);
    assert(s.push(c).drop_last() =~= s);
}

/// What normalizing an ASCII name gives: its ASCII letters and digits,
/// lowercased.
pub open spec fn ascii_normalized(s: Seq<char>) -> Seq<char> {
    ascii_lower(s.filter(|c: char| is_ascii_alnum(c)))
}

proof fn lemma_ascii_filter_push(s: Seq<char>, c: char)
    ensures
        s.push(c).filter(|c: char| is_ascii_alnum(c)) == if is_ascii_alnum(c) {
            s.filter(|c: char| is_ascii_alnum(c)).push(c)
        } else {
            s.filter(|c: char| is_ascii_alnum(c))
        },
{
    reveal(Seq::filter);
    assert(s.push(c).drop_last() =~= s);
}

/// Keeping what every character passes keeps everything.
proof fn lemma_filter_keeps_all(s: Seq<char>)
    requires
        forall|i: int| 0 <= i < s.len() ==> is_ascii_alnum(#[trigger] s[i]),
    ensures
        s.filter(|c: char| is_ascii_alnum(c)) == s,
    decreases s.len(),
{
    reveal(Seq::filter);
    if s.len() > 0 {
        lemma_filter_keeps_all(s.drop_last());
        assert(is_ascii_alnum(s[s.len() - 1]));
        assert(s.drop_last().push(s.last()) =~= s);
    } else {
        assert(s.filter(|c: char| is_ascii_alnum(c)) =~= s);
    }
}

/// Normalizing an ASCII name leaves only lowercase ASCII letters and digits,
/// and normalizing that again changes nothing.
pub proof fn law_ascii_normalize_idempotent(s: Seq<char>)
    requires
        all_ascii(s),
    ensures
        forall|i: int|
            0 <= i < ascii_normalized(s).len() ==> ('0' <= #[trigger] ascii_normalized(s)[i] <= '9'
                || 'a' <= ascii_normalized(s)[i] <= 'z'),
        all_ascii(ascii_normalized(s)),
        ascii_normalized(ascii_normalized(s)) == ascii_normalized(s),
{
    let p = |c: char| is_ascii_alnum(c);
    let t = s.filter(p);
    let u = ascii_normalized(s);
    assert forall|i: int| 0 <= i < u.len() implies ('0' <= #[trigger] u[i] <= '9' || 'a' <= u[i] <= 'z') by {
        s.lemma_filter_pred(p, i);
        let c = t[i];
        assert(u[i] == ascii_lower_char(c));
        if 'A' <= c && c <= 'Z' {
            assert((c as u32) + 32 <= 'z' as u32);
        }
    }
    assert forall|i: int| 0 <= i < u.len() implies is_ascii_char(#[trigger] u[i]) by {
        assert('0' <= u[i] <= '9' || 'a' <= u[i] <= 'z');
    }
    assert forall|i: int| 0 <= i < u.len() implies is_ascii_alnum(#[trigger] u[i]) by {
        assert('0' <= u[i] <= '9' || 'a' <= u[i] <= 'z');
    }
    lemma_filter_keeps_all(u);
    assert(ascii_lower(u) =~= u) by {
        assert forall|i: int| 0 <= i < u.len() implies #[trigger] ascii_lower(u)[i] == u[i] by {
            assert('0' <= u[i] <= '9' || 'a' <= u[i] <= 'z');
        }
    }
}

/// Keeps the letters and digits of `s` and lowercases them; on an ASCII name
/// that is its ASCII letters and digits, lowercased.
pub fn normalize(s: &str) -> (r: String)
    ensures
        r@ == normalized(s@),
        all_ascii(s@) ==> r@ == ascii_normalized(s@),
{
    let n = s.unicode_len();
    let mut kept = String::new();
    let mut i: usize = 0;
    while i < n
        invariant
            n == s@.len(),
            i <= n,
            kept@ == s@.take(i as int).filter(|c: char| char_is_alphanumeric(c)),
            all_ascii(s@) ==> kept@ == s@.take(i as int).filter(|c: char| is_ascii_alnum(c)),
        decreases n - i,
    {
        let c = s.get_char(i);
        proof {
            assert(s@.take(i + 1) =~= s@.take(i as int).push(c));
            lemma_filter_push(s@.take(i as int), c);
            lemma_ascii_filter_push(s@.take(i as int), c);
            if all_ascii(s@) {
                assert(is_ascii_char(s@[i as int]));
            }
        }
        if is_alphanumeric(c) {
            push_char(&mut kept, c);
        }
        i = i + 1;
    }
    proof {
        assert(s@.take(n as int) =~= s@);
        if all_ascii(s@) {
            let p = |c: char| is_ascii_alnum(c);
            assert forall|k: int| 0 <= k < kept@.len() implies is_ascii_char(#[trigger] kept@[k]) by {
                s@.lemma_filter_pred(p, k);
            }
        }
    }
    lowercase(kept.as_str())
}

/// The normalized name of a directory (empty when it has no usable name).
pub open spec fn dir_key(p: PathSeq) -> Seq<char> {
    match file_name_of(p) {
        Some(name) => normalized(name),
        None => seq![],
    }
}

/// How a directory's normalized name matches an application's.
pub open spec fn confidence_of(dir: Seq<char>, app: Seq<char>) -> Option<MatchConfidence> {
    if dir.len() == 0 {
        None
    } else if dir == app {
        Some(MatchConfidence::Exact)
    } else if contains_seq(dir, app) || contains_seq(app, dir) {
        Some(MatchConfidence::Partial)
    } else {
        None
    }
}

/// The stronger of two optional confidences.
pub open spec fn stronger(a: Option<MatchConfidence>, b: Option<MatchConfidence>) -> Option<
    MatchConfidence,
> {
    if a == Some(MatchConfidence::Exact) || b == Some(MatchConfidence::Exact) {
        Some(MatchConfidence::Exact)
    } else if a is Some || b is Some {
        Some(MatchConfidence::Partial)
    } else {
        None
    }
}

pub open spec fn agg_confidence(a: DirectoryAggregate, app_key: Seq<char>) -> Option<MatchConfidence> {
    confidence_of(dir_key(a.path@), app_key)
}

/// The paths of the aggregates that match, in order.
pub open spec fn matched_paths(aggs: Seq<DirectoryAggregate>, app_key: Seq<char>) -> Seq<PathSeq>
    decreases aggs.len(),
{
    if aggs.len() == 0 {
        seq![]
    } else if agg_confidence(aggs.last(), app_key) is Some {
        matched_paths(aggs.drop_last(), app_key).push(aggs.last().path@)
    } else {
        matched_paths(aggs.drop_last(), app_key)
    }
}

/// The summed sizes of the aggregates that match.
pub open spec fn matched_size(aggs: Seq<DirectoryAggregate>, app_key: Seq<char>) -> nat
    decreases aggs.len(),
{
    if aggs.len() == 0 {
        0
    } else if agg_confidence(aggs.last(), app_key) is Some {
        matched_size(aggs.drop_last(), app_key) + aggs.last().total_size as nat
    } else {
        matched_size(aggs.drop_last(), app_key)
    }
}

/// The strongest match among the aggregates.
pub open spec fn best_confidence(aggs: Seq<DirectoryAggregate>, app_key: Seq<char>) -> Option<
    MatchConfidence,
>
    decreases aggs.len(),
{
    if aggs.len() == 0 {
        None
    } else {
        stronger(best_confidence(aggs.drop_last(), app_key), agg_confidence(aggs.last(), app_key))
    }
}

/// Some directory among `aggs` is named exactly like the application.
pub open spec fn some_exact_name(aggs: Seq<DirectoryAggregate>, app_key: Seq<char>) -> bool {
    exists|i: int| 0 <= i < aggs.len() && #[trigger] dir_key(aggs[i].path@) == app_key
}

/// Some directory among `aggs` matches the application at all.
pub open spec fn some_match(aggs: Seq<DirectoryAggregate>, app_key: Seq<char>) -> bool {
    exists|i: int| 0 <= i < aggs.len() && #[trigger] agg_confidence(aggs[i], app_key) is Some
}

/// An association's confidence is exact exactly when some matched directory's
/// normalized name equals the application's, and partial when directories
/// match but none exactly -- whatever order the directories come in. It is
/// absent exactly when nothing matches.
pub proof fn law_confidence_is_strongest_match(aggs: Seq<DirectoryAggregate>, app_key: Seq<char>)
    requires
        app_key.len() > 0,
    ensures
        (best_confidence(aggs, app_key) == Some(MatchConfidence::Exact)) == some_exact_name(aggs, app_key),
        (best_confidence(aggs, app_key) == Some(MatchConfidence::Partial)) == (some_match(aggs, app_key)
            && !some_exact_name(aggs, app_key)),
        (best_confidence(aggs, app_key) is None) == !some_match(aggs, app_key),
    decreases aggs.len(),
{
    if aggs.len() > 0 {
        let rest = aggs.drop_last();
        law_confidence_is_strongest_match(rest, app_key);
        let n = aggs.len() - 1;
        let last = aggs[n];
        assert(last == aggs.last());
        assert(some_exact_name(aggs, app_key) == (some_exact_name(rest, app_key) || dir_key(last.path@) == app_key)) by {
            if some_exact_name(rest, app_key) {
                let i = choose|i: int| 0 <= i < rest.len() && #[trigger] dir_key(rest[i].path@) == app_key;
                assert(aggs[i] == rest[i]);
                assert(dir_key(aggs[i].path@) == app_key);
            }
            if some_exact_name(aggs, app_key) {
                let i = choose|i: int| 0 <= i < aggs.len() && #[trigger] dir_key(aggs[i].path@) == app_key;
                if i < n {
                    assert(rest[i] == aggs[i]);
                    assert(dir_key(rest[i].path@) == app_key);
                }
            }
            if dir_key(last.path@) == app_key {
                assert(dir_key(aggs[n].path@) == app_key);
            }
        }
        assert(some_match(aggs, app_key) == (some_match(rest, app_key) || agg_confidence(last, app_key) is Some)) by {
            if some_match(rest, app_key) {
                let i = choose|i: int| 0 <= i < rest.len() && #[trigger] agg_confidence(rest[i], app_key) is Some;
                assert(aggs[i] == rest[i]);
                assert(agg_confidence(aggs[i], app_key) is Some);
            }
            if some_match(aggs, app_key) {
                let i = choose|i: int| 0 <= i < aggs.len() && #[trigger] agg_confidence(aggs[i], app_key) is Some;
                if i < n {
                    assert(rest[i] == aggs[i]);
                    assert(agg_confidence(rest[i], app_key) is Some);
                }
            }
            if agg_confidence(last, app_key) is Some {
                assert(agg_confidence(aggs[n], app_key) is Some);
            }
        }
        // The last directory's own confidence: exact exactly when its name is the
        // application's (the application's name is not empty).
        assert((agg_confidence(last, app_key) == Some(MatchConfidence::Exact)) == (dir_key(last.path@) == app_key));
    }
}

pub open spec fn paths_view(ps: Seq<FsPath>) -> Seq<PathSeq> {
    Seq::new(ps.len(), |i: int| ps[i]@)
}

/// Whether an application gets an association: its normalized name is not
/// empty and at least one aggregate matches it.
pub open spec fn is_associated(app: InstalledApp, aggs: Seq<DirectoryAggregate>) -> bool {
    normalized(app.name@).len() > 0 && matched_paths(aggs, normalized(app.name@)).len() > 0
}

/// Whether `a` associates `app` with the aggregates: every matching path in
/// order, their summed size, and the strongest confidence among them.
pub open spec fn association_matches(a: AppAssociation, app: InstalledApp, aggs: Seq<DirectoryAggregate>) -> bool {
    let key = normalized(app.name@);
    &&& a.app == app
    &&& paths_view(a.associated_paths@) == matched_paths(aggs, key)
    &&& a.associated_size == matched_size(aggs, key)
    &&& Some(a.confidence) == best_confidence(aggs, key)
}

/// The associations of all the applications that get one, in order.
pub open spec fn associations_match(r: Seq<AppAssociation>, apps: Seq<InstalledApp>, aggs: Seq<DirectoryAggregate>) -> bool
    decreases apps.len(),
{
    if apps.len() == 0 {
        r.len() == 0
    } else if is_associated(apps.last(), aggs) {
        r.len() > 0 && association_matches(r.last(), apps.last(), aggs) && associations_match(
            r.drop_last(),
            apps.drop_last(),
            aggs,
        )
    } else {
        associations_match(r, apps.drop_last(), aggs)
    }
}

/// The summed size of every application's matches fits in a `u64`.
pub open spec fn sizes_fit(apps: Seq<InstalledApp>, aggs: Seq<DirectoryAggregate>) -> bool {
    forall|i: int|
        0 <= i < apps.len() ==> #[trigger] matched_size(aggs, normalized(apps[i].name@))
            <= u64::MAX
}

/// A separate copy of an optional string.
fn copy_opt(s: &Option<String>) -> (r: Option<String>)
    ensures
        r == *s,
{
    match s {
        Some(v) => Some(v.clone()),
        None => None,
    }
}

impl InstalledApp {
    /// A separate copy of this record.
    pub fn copied(&self) -> (r: InstalledApp)
        ensures
            r == *self,
    {
        InstalledApp {
            name: self.name.clone(),
            publisher: copy_opt(&self.publisher),
            install_location: copy_opt(&self.install_location),
            estimated_size_bytes: self.estimated_size_bytes,
            uninstall_command: copy_opt(&self.uninstall_command),
        }
    }
}

/// How a directory's normalized name matches an application's normalized name.
fn match_confidence(dir: &String, app: &String) -> (r: Option<MatchConfidence>)
    ensures
        r == confidence_of(dir@, app@),
{
    if dir.unicode_len() == 0 {
        return None;
    }
    if *dir == *app {
        return Some(MatchConfidence::Exact);
    }
    let d = chars_of(dir.as_str());
    let a = chars_of(app.as_str());
    if contains_chars(&d, &a) || contains_chars(&a, &d) {
        Some(MatchConfidence::Partial)
    } else {
        None
    }
}

/// How directory `p` matches an application's normalized name.
fn path_confidence(p: &FsPath, app_key: &String) -> (r: Option<MatchConfidence>)
    ensures
        r == confidence_of(dir_key(p@), app_key@),
{
    match p.file_name() {
        Some(name) => {
            let key = normalize(name.as_str());
            match_confidence(&key, app_key)
        },
        None => {
            let empty = String::new();
            match_confidence(&empty, app_key)
        },
    }
}

/// Total size of the aggregates matching `app_key`, or `None` if it does not
/// fit in a `u64`.
fn matched_size_checked(app_key: &String, aggregates: &[DirectoryAggregate]) -> (r: Option<u64>)
    ensures
        match r {
            Some(v) => v == matched_size(aggregates@, app_key@),
            None => matched_size(aggregates@, app_key@) > u64::MAX,
        },
{
    let mut total: u64 = 0;
    let n = aggregates.len();
    let mut i: usize = 0;
    while i < n
        invariant
            n == aggregates@.len(),
            i <= n,
            total == matched_size(aggregates@.take(i as int), app_key@),
        decreases n - i,
    {
        let agg = &aggregates[i];
        proof {
            assert(aggregates@.take(i + 1).drop_last() =~= aggregates@.take(i as int));
            assert(aggregates@.take(i + 1).last() == *agg);
        }
        if path_confidence(&agg.path, app_key).is_some() {
            if agg.total_size > u64::MAX - total {
                proof {
                    lemma_matched_size_prefix(aggregates@, app_key@, i + 1);
                }
                return None;
            }
            total = total + agg.total_size;
        }
        i = i + 1;
    }
    proof {
        assert(aggregates@.take(n as int) =~= aggregates@);
    }
    Some(total)
}

/// A prefix never matches more size than the whole list.
proof fn lemma_matched_size_prefix(aggs: Seq<DirectoryAggregate>, key: Seq<char>, k: int)
    requires
        0 <= k <= aggs.len(),
    ensures
        matched_size(aggs.take(k), key) <= matched_size(aggs, key),
    decreases aggs.len() - k,
{
    if k < aggs.len() {
        lemma_matched_size_prefix(aggs, key, k + 1);
        assert(aggs.take(k + 1).drop_last() =~= aggs.take(k));
    } else {
        assert(aggs.take(k) =~= aggs);
    }
}

/// The association of one application, or `None` when nothing matches.
fn associate_one(app: &InstalledApp, aggregates: &[DirectoryAggregate]) -> (r: Option<AppAssociation>)
    requires
        matched_size(aggregates@, normalized(app.name@)) <= u64::MAX,
    ensures
        r is Some <==> is_associated(*app, aggregates@),
        r matches Some(a) ==> association_matches(a, *app, aggregates@),
{
    let normalized_app = normalize(app.name.as_str());
    if normalized_app.unicode_len() == 0 {
        return None;
    }
    let ghost key = normalized_app@;
    let mut associated_paths: Vec<FsPath> = Vec::new();
    let mut associated_size: u64 = 0;
    let mut best: Option<MatchConfidence> = None;
    let n = aggregates.len();
    let mut i: usize = 0;
    while i < n
        invariant
            n == aggregates@.len(),
            i <= n,
            key == normalized_app@,
            key == normalized(app.name@),
            matched_size(aggregates@, key) <= u64::MAX,
            paths_view(associated_paths@) == matched_paths(aggregates@.take(i as int), key),
            associated_size == matched_size(aggregates@.take(i as int), key),
            best == best_confidence(aggregates@.take(i as int), key),
        decreases n - i,
    {
        let agg = &aggregates[i];
        proof {
            assert(aggregates@.take(i + 1).drop_last() =~= aggregates@.take(i as int));
            assert(aggregates@.take(i + 1).last() == *agg);
            lemma_matched_size_prefix(aggregates@, key, i + 1);
        }
        let confidence = path_confidence(&agg.path, &normalized_app);
        match confidence {
            Some(c) => {
                associated_paths.push(agg.path.copied());
                associated_size = associated_size + agg.total_size;
                best = match (best, c) {
                    (Some(MatchConfidence::Exact), _) => Some(MatchConfidence::Exact),
                    (_, MatchConfidence::Exact) => Some(MatchConfidence::Exact),
                    _ => Some(MatchConfidence::Partial),
                };
                proof {
                    assert(paths_view(associated_paths@) =~= matched_paths(
                        aggregates@.take(i as int),
                        key,
                    ).push(agg.path@));
                }
            },
            None => {},
        }
        i = i + 1;
    }
    proof {
        assert(aggregates@.take(n as int) =~= aggregates@);
    }
    if associated_paths.len() == 0 {
        return None;
    }
    proof {
        lemma_matched_implies_best(aggregates@, key);
    }
    let confidence = match best {
        Some(c) => c,
        None => MatchConfidence::Partial,
    };
    Some(
        AppAssociation {
            app: app.copied(),
            associated_paths,
            associated_size,
            confidence,
        },
    )
}

proof fn lemma_matched_implies_best(aggs: Seq<DirectoryAggregate>, key: Seq<char>)
    ensures
        matched_paths(aggs, key).len() > 0 ==> best_confidence(aggs, key) is Some,
    decreases aggs.len(),
{
    if aggs.len() > 0 {
        lemma_matched_implies_best(aggs.drop_last(), key);
    }
}

/// Associates every application with the aggregates whose directory name
/// matches it, keeping only applications with at least one match, in order.
pub fn associate_apps_with_storage(apps: &[InstalledApp], aggregates: &[DirectoryAggregate]) -> (r: Vec<AppAssociation>)
    requires
        sizes_fit(apps@, aggregates@),
    ensures
        associations_match(r@, apps@, aggregates@),
{
    let mut out: Vec<AppAssociation> = Vec::new();
    let n = apps.len();
    let mut i: usize = 0;
    while i < n
        invariant
            n == apps@.len(),
            i <= n,
            sizes_fit(apps@, aggregates@),
            associations_match(out@, apps@.take(i as int), aggregates@),
        decreases n - i,
    {
        let app = &apps[i];
        proof {
            assert(matched_size(aggregates@, normalized(apps@[i as int].name@)) <= u64::MAX);
            assert(apps@.take(i + 1).drop_last() =~= apps@.take(i as int));
            assert(apps@.take(i + 1).last() == *app);
        }
        match associate_one(app, aggregates) {
            Some(a) => {
                let ghost before = out@;
                out.push(a);
                proof {
                    assert(out@.drop_last() =~= before);
                }
            },
            None => {},
        }
        i = i + 1;
    }
    proof {
        assert(apps@.take(n as int) =~= apps@);
    }
    out
}

/// `associate_apps_with_storage`, or `None` when some application's matched
/// sizes add up to more than a `u64` holds.
pub fn associate_apps_checked(apps: &[InstalledApp], aggregates: &[DirectoryAggregate]) -> (r: Option<Vec<AppAssociation>>)
    ensures
        r is Some <==> sizes_fit(apps@, aggregates@),
        r matches Some(v) ==> associations_match(v@, apps@, aggregates@),
{
    let n = apps.len();
    let mut i: usize = 0;
    while i < n
        invariant
            n == apps@.len(),
            i <= n,
            forall|k: int|
                0 <= k < i ==> #[trigger] matched_size(aggregates@, normalized(apps@[k].name@))
                    <= u64::MAX,
        decreases n - i,
    {
        let key = normalize(apps[i].name.as_str());
        if matched_size_checked(&key, aggregates).is_none() {
            return None;
        }
        i = i + 1;
    }
    Some(associate_apps_with_storage(apps, aggregates))
}

} // verus!
