//! Path identity: the bundle name derived from an application path, the
//! application-bundle extension check, and normalization of a raw path into
//! the canonical registry identity.
use vstd::prelude::*;
use crate::text::{lower, trim, trimmed, eq_ci};

verus! {

/// The path with any trailing slashes removed.
pub open spec fn strip_trailing_slashes(s: Seq<char>) -> Seq<char>
    decreases s.len(),
{
    if s.len() > 0 && s[s.len() - 1] == '/' {
        strip_trailing_slashes(s.drop_last())
    } else {
        s
    }
}

/// The characters after the last slash; the whole sequence when it has none.
pub open spec fn after_last_slash(s: Seq<char>) -> Seq<char>
    decreases s.len(),
{
    if s.len() == 0 {
        s
    } else if s[s.len() - 1] == '/' {
        Seq::empty()
    } else {
        after_last_slash(s.drop_last()).push(s[s.len() - 1])
    }
}

/// The position of the last dot, or -1 when there is none.
pub open spec fn last_dot_index(s: Seq<char>) -> int
    decreases s.len(),
{
    if s.len() == 0 {
        -1
    } else if s[s.len() - 1] == '.' {
        s.len() - 1
    } else {
        last_dot_index(s.drop_last())
    }
}

/// The component with its extension stripped: everything before the last
/// dot, unless that dot starts the component.
pub open spec fn stem_of(comp: Seq<char>) -> Seq<char> {
    let d = last_dot_index(comp);
    if d >= 1 {
        comp.take(d)
    } else {
        comp
    }
}

/// The path with trailing slashes and trailing current-directory (`.`)
/// components removed, the way path components are read: `a/.` names `a`.
pub open spec fn drop_trailing_dots(s: Seq<char>) -> Seq<char>
    decreases s.len(),
    via drop_trailing_dots_decreases
{
    let t = strip_trailing_slashes(s);
    if after_last_slash(t) == seq!['.'] {
        drop_trailing_dots(t.take(t.len() - 1))
    } else {
        t
    }
}

#[via_fn]
proof fn drop_trailing_dots_decreases(s: Seq<char>) {
    lemma_strip_len(s);
    let t = strip_trailing_slashes(s);
    if after_last_slash(t) == seq!['.'] {
        assert(t.len() >= 1) by {
            if t.len() == 0 {
                assert(after_last_slash(t).len() == 0);
            }
        }
    }
}

proof fn lemma_als_last(t: Seq<char>)
    requires
        t.len() > 0,
        t[t.len() - 1] != '/',
    ensures
        after_last_slash(t).len() >= 1,
        after_last_slash(t)[after_last_slash(t).len() - 1] == t[t.len() - 1],
{
}

proof fn lemma_strip_len(s: Seq<char>)
    ensures
        strip_trailing_slashes(s).len() <= s.len(),
    decreases s.len(),
{
    if s.len() > 0 && s[s.len() - 1] == '/' {
        lemma_strip_len(s.drop_last());
    }
}

/// The bundle identity of a path: the extension-stripped last path
/// component, or nothing when the path has no component or ends in a
/// parent-directory (`..`) component.
pub open spec fn bundle_stem(path: Seq<char>) -> Option<Seq<char>> {
    let comp = after_last_slash(drop_trailing_dots(path));
    if comp.len() == 0 {
        None
    } else if comp == seq!['.', '.'] {
        None
    } else {
        Some(stem_of(comp))
    }
}

/// The last component carries an extension equal to `app`, compared
/// case-insensitively.
pub open spec fn has_app_extension(path: Seq<char>) -> bool {
    let comp = after_last_slash(drop_trailing_dots(path));
    let d = last_dot_index(comp);
    d >= 1 && lower(comp.skip(d + 1)) == lower("app"@)
}

proof fn lemma_strip_trailing(s: Seq<char>, e: int)
    requires
        0 <= e <= s.len(),
        forall|j: int| e <= j < s.len() ==> s[j] == '/',
        e == 0 || s[e - 1] != '/',
    ensures
        strip_trailing_slashes(s) == s.take(e),
    decreases s.len() - e,
{
    if e == s.len() {
        assert(s.take(e) =~= s);
    } else {
        assert(s[s.len() - 1] == '/');
        assert(s.drop_last().take(e) =~= s.take(e));
        lemma_strip_trailing(s.drop_last(), e);
    }
}

proof fn lemma_after_last_slash(s: Seq<char>, st: int)
    requires
        0 <= st <= s.len(),
        forall|j: int| st <= j < s.len() ==> s[j] != '/',
        st == 0 || s[st - 1] == '/',
    ensures
        after_last_slash(s) == s.skip(st),
    decreases s.len(),
{
    if s.len() == 0 {
        assert(s.skip(0) =~= s);
    } else if s[s.len() - 1] == '/' {
        assert(st == s.len());
        assert(s.skip(st) =~= Seq::<char>::empty());
    } else {
        if st == s.len() {
            assert(s[st - 1] != '/');
            assert(false);
        }
        lemma_after_last_slash(s.drop_last(), st);
        assert(s.drop_last().skip(st).push(s[s.len() - 1]) =~= s.skip(st));
    }
}

proof fn lemma_no_dot(s: Seq<char>)
    requires
        forall|j: int| 0 <= j < s.len() ==> s[j] != '.',
    ensures
        last_dot_index(s) == -1,
    decreases s.len(),
{
    if s.len() > 0 {
        lemma_no_dot(s.drop_last());
    }
}

proof fn lemma_last_dot(s: Seq<char>, d: int)
    requires
        0 <= d < s.len(),
        s[d] == '.',
        forall|j: int| d < j < s.len() ==> s[j] != '.',
    ensures
        last_dot_index(s) == d,
    decreases s.len(),
{
    if d == s.len() - 1 {
    } else {
        assert(s[s.len() - 1] != '.');
        lemma_last_dot(s.drop_last(), d);
    }
}

/// The scan positions that pin down a path's last component and extension:
/// `end` closes the stripped path, `start` opens the last component, `m` is
/// one past the last dot of the component (or `start` with no dot).
struct ComponentScan {
    end: usize,
    start: usize,
    m: usize,
}

impl ComponentScan {
    spec fn wf(self, s: Seq<char>) -> bool {
        &&& 0 <= self.start <= self.m as int
        &&& self.m as int <= self.end <= s.len()
        &&& drop_trailing_dots(s) == s.take(self.end as int)
        &&& (self.end == 0 || s[self.end - 1] != '/')
        &&& after_last_slash(s.take(self.end as int)) == s.subrange(
            self.start as int,
            self.end as int,
        )
        &&& (self.m == self.start ==> last_dot_index(
            s.subrange(self.start as int, self.end as int),
        ) == -1)
        &&& (self.m > self.start ==> self.m < self.end + 1 && s[self.m - 1] == '.'
            && last_dot_index(s.subrange(self.start as int, self.end as int)) == self.m - 1
            - self.start)
    }
}

fn scan_component(path: &str) -> (r: ComponentScan)
    ensures
        r.wf(path@),
{
    let n: usize = path.unicode_len();
    let mut end: usize = n;
    proof {
        assert(path@.take(n as int) =~= path@);
    }
    loop
        invariant
            0 <= end <= n,
            n == path@.len(),
            drop_trailing_dots(path@) == drop_trailing_dots(path@.take(end as int)),
        ensures
            0 <= end <= n,
            n == path@.len(),
            drop_trailing_dots(path@) == path@.take(end as int),
            end == 0 || path@[end - 1] != '/',
        decreases end,
    {
        let ghost end0 = end as int;
        while end > 0 && path.get_char(end - 1) == '/'
            invariant
                0 <= end <= end0 <= n,
                n == path@.len(),
                forall|j: int| end <= j < end0 ==> path@[j] == '/',
            decreases end,
        {
            end = end - 1;
        }
        let ghost t0 = path@.take(end0);
        let ghost t = path@.take(end as int);
        proof {
            assert(forall|j: int| end <= j < t0.len() ==> t0[j] == '/');
            if end > 0 {
                assert(t0[end - 1] != '/');
            }
            lemma_strip_trailing(t0, end as int);
            assert(t0.take(end as int) =~= t);
            assert(strip_trailing_slashes(t0) == t);
            lemma_strip_trailing(t, end as int);
            assert(t.take(end as int) =~= t);
            assert(strip_trailing_slashes(t) == t);
        }
        if end >= 1 && path.get_char(end - 1) == '.' && (end == 1 || path.get_char(end - 2)
            == '/') {
            proof {
                assert(forall|j: int| end - 1 <= j < t.len() ==> t[j] != '/');
                lemma_after_last_slash(t, end - 1);
                assert(t.skip(end - 1) =~= seq!['.']);
                assert(after_last_slash(t) == seq!['.']);
                assert(t.take(t.len() - 1) =~= path@.take(end - 1));
                assert(drop_trailing_dots(t0) == drop_trailing_dots(path@.take(end - 1)));
                assert(drop_trailing_dots(t) == drop_trailing_dots(path@.take(end - 1)));
            }
            end = end - 1;
        } else {
            proof {
                assert(after_last_slash(t) != seq!['.']) by {
                    if end == 0 {
                        assert(after_last_slash(t).len() == 0);
                    } else if path@[end - 1] != '.' {
                        lemma_als_last(t);
                    } else {
                        assert(end >= 2 && path@[end - 2] != '/');
                        assert(t[t.len() - 1] == '.');
                        let u = t.drop_last();
                        assert(u =~= path@.take(end - 1));
                        assert(u[u.len() - 1] == path@[end - 2]);
                        lemma_als_last(u);
                        assert(after_last_slash(t) == after_last_slash(u).push('.'));
                        assert(after_last_slash(t).len() >= 2);
                    }
                }
                assert(drop_trailing_dots(t0) == t);
                assert(drop_trailing_dots(t) == t);
            }
            break;
        }
    }
    let mut start: usize = end;
    while start > 0 && path.get_char(start - 1) != '/'
        invariant
            0 <= start <= end <= n,
            n == path@.len(),
            forall|j: int| start <= j < end ==> path@[j] != '/',
        decreases start,
    {
        start = start - 1;
    }
    proof {
        let t = path@.take(end as int);
        assert(forall|j: int| start <= j < t.len() ==> t[j] != '/');
        if start > 0 {
            assert(t[start - 1] == '/');
        }
        lemma_after_last_slash(t, start as int);
        assert(t.skip(start as int) =~= path@.subrange(start as int, end as int));
    }
    let mut m: usize = end;
    while m > start && path.get_char(m - 1) != '.'
        invariant
            start <= m <= end <= n,
            n == path@.len(),
            forall|j: int| m <= j < end ==> path@[j] != '.',
        decreases m,
    {
        m = m - 1;
    }
    proof {
        let comp = path@.subrange(start as int, end as int);
        if m == start {
            assert(forall|j: int| 0 <= j < comp.len() ==> comp[j] != '.');
            lemma_no_dot(comp);
        } else {
            assert(path@[m - 1] == '.');
            assert(comp[m - 1 - start] == '.');
            assert(forall|j: int| m - start <= j < comp.len() ==> comp[j] != '.');
            lemma_last_dot(comp, m - 1 - start);
        }
    }
    ComponentScan { end, start, m }
}

/// The bundle identity of an application path: the extension-stripped last
/// path component; none when the path names no component.
pub fn bundle_name_from_app_path(path: &str) -> (r: Option<String>)
    ensures
        match r {
            Some(s) => bundle_stem(path@) == Some(s@),
            None => bundle_stem(path@) is None,
        },
{
    let sc = scan_component(path);
    let ghost comp = path@.subrange(sc.start as int, sc.end as int);
    if sc.start == sc.end {
        assert(comp.len() == 0);
        return None;
    }
    if sc.end - sc.start == 2 && path.get_char(sc.start) == '.' && path.get_char(sc.start + 1)
        == '.' {
        assert(comp =~= seq!['.', '.']);
        return None;
    }
    assert(comp != seq!['.', '.']) by {
        if comp == seq!['.', '.'] {
            assert(comp.len() == 2);
            assert(comp[0] == '.' && comp[1] == '.');
            assert(path@[sc.start as int] == '.' && path@[sc.start + 1] == '.');
        }
    }
    if sc.m > sc.start + 1 {
        let stem = path.substring_char(sc.start, sc.m - 1);
        assert(stem@ =~= comp.take(sc.m - 1 - sc.start));
        Some(stem.to_owned())
    } else {
        let stem = path.substring_char(sc.start, sc.end);
        assert(stem@ =~= comp);
        assert(stem_of(comp) == comp);
        Some(stem.to_owned())
    }
}

/// Whether a candidate path has the application-bundle extension.
pub fn extension_matches_app(path: &str) -> (r: bool)
    ensures
        r == has_app_extension(path@),
{
    let sc = scan_component(path);
    let ghost comp = path@.subrange(sc.start as int, sc.end as int);
    if sc.m > sc.start + 1 {
        let ext = path.substring_char(sc.m, sc.end);
        assert(ext@ =~= comp.skip(sc.m as int - sc.start));
        eq_ci(ext, "app")
    } else {
        false
    }
}

/// A candidate is a valid application bundle when its path carries the
/// bundle extension and an existing directory stands at it. The caller
/// supplies the directory fact, the one part read from disk.
pub fn is_valid_app_bundle_path(path: &str, is_existing_dir: bool) -> (r: bool)
    ensures
        r == (has_app_extension(path@) && is_existing_dir),
{
    let has_ext = extension_matches_app(path);
    has_ext && is_existing_dir
}

/// What resolving a path to its canonical form yielded: a canonical UTF-8
/// path, no resolution, or a canonical form that was not valid UTF-8.
/// When resolution fails the trimmed path deliberately stands in for the
/// canonical one, so a bundle that validates is still registered.
pub enum CanonicalOutcome {
    Resolved(String),
    Unresolved,
    NotUtf8,
}

/// Whether the trimmed path passes validation: non-empty, bundle extension,
/// existing directory.
pub open spec fn valid_bundle_input(path: Seq<char>, is_existing_dir: bool) -> bool {
    trim(path).len() > 0 && has_app_extension(trim(path)) && is_existing_dir
}

/// Normalizes a raw application path into its registry identity. The
/// filesystem facts — whether an existing directory stands at the trimmed
/// path, and what canonicalization yielded — come in as plain values.
/// A path that validates but could not be resolved keeps its trimmed form:
/// the fallback is deliberate, so registration never fails on resolution
/// alone.
pub fn normalize_app_path(path: &str, is_existing_dir: bool, canonical: CanonicalOutcome) -> (r:
    Result<String, String>)
    ensures
        trim(path@).len() == 0 ==> (r matches Err(e) && e@ == "App path is required."@),
        trim(path@).len() > 0 && !(has_app_extension(trim(path@)) && is_existing_dir) ==> (
        r matches Err(e) && e@ == "Invalid app bundle path: "@ + trim(path@)
            + ". Expected an existing .app directory."@),
        valid_bundle_input(path@, is_existing_dir) ==> match canonical {
            CanonicalOutcome::Resolved(c) => (r matches Ok(p) && p@ == c@),
            CanonicalOutcome::Unresolved => (r matches Ok(p) && p@ == trim(path@)),
            CanonicalOutcome::NotUtf8 => (r matches Err(e) && e@
                == "App path must be valid UTF-8."@),
        },
{
    let t = trimmed(path);
    if t.unicode_len() == 0 {
        return Err("App path is required.".to_owned());
    }
    if !is_valid_app_bundle_path(t, is_existing_dir) {
        let mut msg = "Invalid app bundle path: ".to_owned();
        msg.append(t);
        msg.append(". Expected an existing .app directory.");
        assert(msg@ =~= "Invalid app bundle path: "@ + trim(path@)
            + ". Expected an existing .app directory."@);
        return Err(msg);
    }
    match canonical {
        CanonicalOutcome::Resolved(c) => Ok(c),
        CanonicalOutcome::Unresolved => Ok(t.to_owned()),
        CanonicalOutcome::NotUtf8 => Err("App path must be valid UTF-8.".to_owned()),
    }
}

} // verus!
