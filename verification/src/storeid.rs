//! Store identifiers: path-shaped keys naming records.
//!
//! An identifier is a hierarchical path string, typically ending in
//! `name~semver`.  Identifiers are normalized ("storified") by prefixing the
//! store's root before any cache or file operation.

use vstd::prelude::*;

use crate::error::{StoreError, StoreErrorKind};
use crate::strutil::{str_chars, string_from_chars, subvec_chars};
use crate::version::{is_valid_semver, semver_ok};

verus! {

/// The index into the store: a path-shaped key.
pub type StoreId = String;

/// Converts a representation into a [`StoreId`].
pub trait IntoStoreId {
    fn into_storeid(self) -> StoreId;
}

impl IntoStoreId for String {
    fn into_storeid(self) -> StoreId {
        self
    }
}

/// The suffix of `p` after the last occurrence of `c`; all of `p` when `c`
/// does not occur.
pub open spec fn spec_after_last(p: Seq<char>, c: char) -> Seq<char>
    decreases p.len(),
{
    if p.len() == 0 {
        p
    } else if p.last() == c {
        Seq::empty()
    } else {
        spec_after_last(p.drop_last(), c).push(p.last())
    }
}

/// If position `j` holds the last occurrence of `c`, the suffix after the
/// last `c` is everything after `j`.
pub proof fn lemma_after_last_at(p: Seq<char>, c: char, j: int)
    requires
        0 <= j < p.len(),
        p[j] == c,
        forall|k: int| j < k < p.len() ==> p[k] != c,
    ensures
        spec_after_last(p, c) == p.subrange(j + 1, p.len() as int),
    decreases p.len(),
{
    if j == p.len() - 1 {
        assert(p.subrange(j + 1, p.len() as int) =~= Seq::empty());
    } else {
        lemma_after_last_at(p.drop_last(), c, j);
        assert(p.drop_last().subrange(j + 1, p.len() as int - 1) =~= p.subrange(
            j + 1,
            p.len() as int - 1,
        ));
        assert(spec_after_last(p, c) =~= p.subrange(j + 1, p.len() as int));
    }
}

/// When `c` does not occur in `p`, the suffix after the last `c` is `p`
/// itself.
pub proof fn lemma_after_last_none(p: Seq<char>, c: char)
    requires
        forall|k: int| 0 <= k < p.len() ==> p[k] != c,
    ensures
        spec_after_last(p, c) == p,
    decreases p.len(),
{
    if p.len() > 0 {
        lemma_after_last_none(p.drop_last(), c);
        assert(spec_after_last(p, c) =~= p);
    }
}

/// An identifier normalized under a store root: the root, a separating
/// slash, and the identifier with one leading slash dropped.
pub open spec fn spec_storified(location: Seq<char>, id: Seq<char>) -> Seq<char> {
    location + seq!['/'] + (if id.len() > 0 && id[0] == '/' {
        id.drop_first()
    } else {
        id
    })
}

/// Prefixes the store root to an identifier.  Pure; no file access.
#[verifier::loop_isolation(false)]
pub fn storify(location: &String, id: &StoreId) -> (r: StoreId)
    ensures
        r@ == spec_storified(location@, id@),
{
    let mut out = str_chars(location.as_str());
    out.push('/');
    let idc = str_chars(id.as_str());
    let mut i: usize = if idc.len() > 0 && idc[0] == '/' {
        1
    } else {
        0
    };
    let ghost base = out@;
    let ghost from = i as int;
    while i < idc.len()
        invariant
            from <= i <= idc@.len(),
            idc@ == id@,
            out@ == base + idc@.subrange(from, i as int),
        decreases idc@.len() - i,
    {
        out.push(idc[i]);
        proof {
            assert(out@ =~= base + idc@.subrange(from, i as int + 1));
        }
        i = i + 1;
    }
    proof {
        if id@.len() > 0 && id@[0] == '/' {
            assert(idc@.subrange(1, idc@.len() as int) =~= id@.drop_first());
        } else {
            assert(idc@.subrange(0, idc@.len() as int) =~= id@);
        }
        assert(out@ =~= spec_storified(location@, id@));
    }
    string_from_chars(&out)
}

/// A versioned module entry path, shaped `<module>/<name>~<version>`.
pub struct ModuleEntryPath(StoreId);

impl ModuleEntryPath {
    /// Builds `<module>/<name>~<version>`; the version string must be a valid
    /// semantic version, else the path lacks a version.
    pub fn new(module: &str, name: &str, version: &str) -> (r: Result<ModuleEntryPath, StoreError>)
        ensures
            r matches Ok(mp) ==> semver_ok(version@) && mp@ == module@ + seq!['/'] + name@ + seq![
                '~',
            ] + version@,
            r matches Err(e) ==> !semver_ok(version@) && e.spec_kind()
                == StoreErrorKind::StorePathLacksVersion,
    {
        if !is_valid_semver(version) {
            return Err(StoreError::new(StoreErrorKind::StorePathLacksVersion, None));
        }
        let mut out: Vec<char> = Vec::new();
        crate::strutil::push_str_chars(&mut out, module);
        out.push('/');
        crate::strutil::push_str_chars(&mut out, name);
        out.push('~');
        crate::strutil::push_str_chars(&mut out, version);
        proof {
            assert(out@ =~= module@ + seq!['/'] + name@ + seq!['~'] + version@);
        }
        Ok(ModuleEntryPath(string_from_chars(&out)))
    }
}

impl View for ModuleEntryPath {
    type V = Seq<char>;

    closed spec fn view(&self) -> Seq<char> {
        self.0@
    }
}

impl IntoStoreId for ModuleEntryPath {
    fn into_storeid(self) -> StoreId {
        self.0
    }
}

/// Checks that a path element carries a parseable version after its last `~`
/// (an element without any `~` must itself parse, and so is rejected), then
/// prefixes the store root.
#[verifier::loop_isolation(false)]
pub fn build_entry_path<H: crate::hook::Hook>(
    store: &crate::store::Store<H>,
    path_elem: &str,
) -> (r: Result<StoreId, StoreError>)
    ensures
        r matches Ok(p) ==> semver_ok(spec_after_last(path_elem@, '~')) && p@ == spec_storified(
            store.spec_location(),
            path_elem@,
        ),
        r matches Err(e) ==> !semver_ok(spec_after_last(path_elem@, '~')) && e.spec_kind()
            == StoreErrorKind::StorePathLacksVersion,
{
    let location = store.path();
    let chars = str_chars(path_elem);
    let n = chars.len();
    let mut tilde: usize = n;
    let mut i: usize = 0;
    while i < n
        invariant
            0 <= i <= n,
            n == chars@.len(),
            chars@ == path_elem@,
            tilde == n || (0 <= tilde < i && chars@[tilde as int] == '~'),
            forall|k: int| (if tilde == n {
                0
            } else {
                tilde + 1
            }) <= k < i ==> chars@[k] != '~',
        decreases n - i,
    {
        if chars[i] == '~' {
            tilde = i;
        }
        i = i + 1;
    }
    let vpart = if tilde == n {
        subvec_chars(&chars, 0, n)
    } else {
        subvec_chars(&chars, tilde + 1, n)
    };
    proof {
        if tilde == n {
            lemma_after_last_none(path_elem@, '~');
            assert(path_elem@.subrange(0, n as int) =~= path_elem@);
        } else {
            lemma_after_last_at(path_elem@, '~', tilde as int);
        }
    }
    let vstring = string_from_chars(&vpart);
    if !is_valid_semver(vstring.as_str()) {
        return Err(StoreError::new(StoreErrorKind::StorePathLacksVersion, None));
    }
    let pe = string_from_chars(&chars);
    Ok(storify(location, &pe))
}

/// Versioned module paths round-trip: the version written into
/// `<module>/<name>~<version>` by [`ModuleEntryPath::new`] is recovered as
/// the suffix after the last `~`, as long as the version itself carries no
/// `~` (semantic versions never do).
pub proof fn lemma_versioned_path_round_trip(
    module: Seq<char>,
    name: Seq<char>,
    version: Seq<char>,
)
    requires
        forall|k: int| 0 <= k < version.len() ==> version[k] != '~',
    ensures
        spec_after_last(module + seq!['/'] + name + seq!['~'] + version, '~') == version,
{
    let p = module + seq!['/'] + name + seq!['~'] + version;
    let j: int = module.len() + 1 + name.len() as int;
    assert(p[j] == '~');
    assert forall|k: int| j < k < p.len() implies p[k] != '~' by {
        assert(p[k] == version[k - j - 1]);
    }
    lemma_after_last_at(p, '~', j);
    assert(p.subrange(j + 1, p.len() as int) =~= version);
}

} // verus!
