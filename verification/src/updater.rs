//! The release-update decision: given a fetched release description, strip
//! the tag prefix, compare versions by SemVer precedence, and pick the asset
//! to download. Fetching the release feed and downloading are the embedding
//! application's work; the rules live here.

use vstd::prelude::*;

verus! {

use vstd::string::StrSliceExecFns;

/// A release asset as the release feed describes it.
pub struct ReleaseAsset {
    pub name: String,
    pub browser_download_url: String,
}

/// A published release: its tag, optional notes, publication time and assets.
pub struct Release {
    pub tag_name: String,
    pub body: Option<String>,
    pub published_at: String,
    pub assets: Vec<ReleaseAsset>,
}

/// What an available update looks like to the caller.
#[derive(Debug)]
pub struct UpdateInfo {
    pub version: String,
    pub download_url: String,
    pub release_notes: String,
    pub published_at: String,
}

/// The running application's own version.
pub fn get_current_version() -> (r: String)
    ensures
        r@ == "0.1.0"@,
{
    "0.1.0".to_owned()
}

pub fn get_current_app_version() -> (r: String)
    ensures
        r@ == "0.1.0"@,
{
    get_current_version()
}

/// The architecture tag a release asset's name carries.
pub fn get_arch_suffix(aarch64: bool) -> (r: &'static str)
    ensures
        aarch64 ==> r@ == "aarch64"@,
        !aarch64 ==> r@ == "x64"@,
{
    if aarch64 {
        "aarch64"
    } else {
        "x64"
    }
}

/// A release tag with every leading `v` removed.
pub open spec fn strip_v_spec(s: Seq<char>) -> Seq<char>
    decreases s.len(),
{
    if s.len() > 0 && s[0] == 'v' {
        strip_v_spec(s.drop_first())
    } else {
        s
    }
}

/// Strips the leading `v` prefix, however many stand, from a release tag.
#[verifier::loop_isolation(false)]
pub fn strip_v_prefix(tag: &str) -> (r: String)
    ensures
        r@ == strip_v_spec(tag@),
{
    let n = tag.unicode_len();
    let mut i: usize = 0;
    proof {
        assert(tag@.skip(0) =~= tag@);
    }
    while i < n && tag.get_char(i) == 'v'
        invariant
            i <= n,
            strip_v_spec(tag@) == strip_v_spec(tag@.skip(i as int)),
        decreases n - i,
    {
        proof {
            assert(tag@.skip(i as int)[0] == tag@[i as int]);
            assert(tag@.skip(i as int).drop_first() =~= tag@.skip((i + 1) as int));
        }
        i += 1;
    }
    let r = tag.substring_char(i, n).to_owned();
    proof {
        if i < n {
            assert(tag@.skip(i as int)[0] == tag@[i as int]);
        }
        assert(strip_v_spec(tag@.skip(i as int)) == tag@.skip(i as int));
        assert(r@ =~= tag@.skip(i as int));
    }
    r
}

/// `suffix` closes `s`.
pub open spec fn ends_with_spec(s: Seq<char>, suffix: Seq<char>) -> bool {
    s.len() >= suffix.len() && s.subrange(s.len() - suffix.len(), s.len() as int) == suffix
}

#[verifier::loop_isolation(false)]
pub fn str_ends_with(s: &str, suffix: &str) -> (r: bool)
    ensures
        r == ends_with_spec(s@, suffix@),
{
    let n = s.unicode_len();
    let m = suffix.unicode_len();
    if m > n {
        return false;
    }
    let mut j: usize = 0;
    while j < m
        invariant
            j <= m,
            m <= n,
            forall|k: int| 0 <= k < j ==> s@[n - m + k] == suffix@[k],
        decreases m - j,
    {
        if s.get_char(n - m + j) != suffix.get_char(j) {
            proof {
                assert(s@.subrange(n - m, n as int)[j as int] != suffix@[j as int]);
            }
            return false;
        }
        j += 1;
    }
    proof {
        assert(s@.subrange(n - m, n as int) =~= suffix@);
    }
    true
}

/// `sub` occurs in `s` starting at `i`.
pub open spec fn contains_at(s: Seq<char>, sub: Seq<char>, i: int) -> bool {
    0 <= i && i + sub.len() <= s.len() && s.subrange(i, i + sub.len()) == sub
}

/// `sub` occurs somewhere in `s`.
pub open spec fn contains_seq(s: Seq<char>, sub: Seq<char>) -> bool {
    exists|i: int| contains_at(s, sub, i)
}

#[verifier::loop_isolation(false)]
fn matches_at(s: &str, sub: &str, i: usize) -> (r: bool)
    requires
        i + sub@.len() <= s@.len(),
    ensures
        r == (s@.subrange(i as int, i + sub@.len()) == sub@),
{
    let n = s.unicode_len();
    let m = sub.unicode_len();
    let mut j: usize = 0;
    while j < m
        invariant
            j <= m,
            forall|k: int| 0 <= k < j ==> s@[i + k] == sub@[k],
        decreases m - j,
    {
        if s.get_char(i + j) != sub.get_char(j) {
            proof {
                assert(s@.subrange(i as int, i + sub@.len())[j as int] != sub@[j as int]);
            }
            return false;
        }
        j += 1;
    }
    proof {
        assert(s@.subrange(i as int, i + sub@.len()) =~= sub@);
    }
    true
}

#[verifier::loop_isolation(false)]
pub fn str_contains(s: &str, sub: &str) -> (r: bool)
    ensures
        r == contains_seq(s@, sub@),
{
    let n = s.unicode_len();
    let m = sub.unicode_len();
    if m > n {
        proof {
            assert(forall|i: int| !contains_at(s@, sub@, i));
        }
        return false;
    }
    if m == 0 {
        proof {
            assert(s@.subrange(0, 0) =~= sub@);
            assert(contains_at(s@, sub@, 0));
        }
        return true;
    }
    let mut i: usize = 0;
    while i <= n - m
        invariant
            i <= n - m + 1,
            m <= n,
            n == s@.len(),
            m == sub@.len(),
            forall|k: int| 0 <= k < i ==> !contains_at(s@, sub@, k),
        decreases n - m + 1 - i,
    {
        if matches_at(s, sub, i) {
            proof {
                assert(contains_at(s@, sub@, i as int));
            }
            return true;
        }
        i += 1;
    }
    proof {
        assert forall|k: int| !contains_at(s@, sub@, k) by {
            if 0 <= k <= n - m {
                assert(!contains_at(s@, sub@, k));
            }
        }
    }
    false
}

/// A `.dmg` asset built for the given architecture.
pub open spec fn is_dmg_for_arch(name: Seq<char>, arch: Seq<char>) -> bool {
    ends_with_spec(name, ".dmg"@) && contains_seq(name, arch)
}

/// Index of the first asset whose name is a `.dmg` for the architecture.
pub open spec fn first_arch_dmg(assets: Seq<ReleaseAsset>, arch: Seq<char>) -> Option<int>
    decreases assets.len(),
{
    if assets.len() == 0 {
        None
    } else if is_dmg_for_arch(assets[0].name@, arch) {
        Some(0)
    } else {
        match first_arch_dmg(assets.drop_first(), arch) {
            Some(i) => Some(i + 1),
            None => None,
        }
    }
}

/// Index of the first asset whose name is any `.dmg`.
pub open spec fn first_dmg(assets: Seq<ReleaseAsset>) -> Option<int>
    decreases assets.len(),
{
    if assets.len() == 0 {
        None
    } else if ends_with_spec(assets[0].name@, ".dmg"@) {
        Some(0)
    } else {
        match first_dmg(assets.drop_first()) {
            Some(i) => Some(i + 1),
            None => None,
        }
    }
}

/// The asset a release offers for installation: the first `.dmg` whose name
/// carries the architecture tag, else the first `.dmg` at all, else nothing.
pub open spec fn selected_asset(assets: Seq<ReleaseAsset>, arch: Seq<char>) -> Option<int> {
    match first_arch_dmg(assets, arch) {
        Some(i) => Some(i),
        None => first_dmg(assets),
    }
}

proof fn lemma_first_arch_dmg_is(assets: Seq<ReleaseAsset>, arch: Seq<char>, k: int)
    requires
        0 <= k <= assets.len(),
        forall|j: int| 0 <= j < k ==> !is_dmg_for_arch(assets[j].name@, arch),
        k < assets.len() ==> is_dmg_for_arch(assets[k].name@, arch),
    ensures
        k < assets.len() ==> first_arch_dmg(assets, arch) == Some(k),
        k == assets.len() ==> first_arch_dmg(assets, arch) is None,
    decreases assets.len(),
{
    if assets.len() > 0 && !is_dmg_for_arch(assets[0].name@, arch) {
        lemma_first_arch_dmg_is(assets.drop_first(), arch, k - 1);
    }
}

proof fn lemma_first_dmg_is(assets: Seq<ReleaseAsset>, k: int)
    requires
        0 <= k <= assets.len(),
        forall|j: int| 0 <= j < k ==> !ends_with_spec(assets[j].name@, ".dmg"@),
        k < assets.len() ==> ends_with_spec(assets[k].name@, ".dmg"@),
    ensures
        k < assets.len() ==> first_dmg(assets) == Some(k),
        k == assets.len() ==> first_dmg(assets) is None,
    decreases assets.len(),
{
    if assets.len() > 0 && !ends_with_spec(assets[0].name@, ".dmg"@) {
        lemma_first_dmg_is(assets.drop_first(), k - 1);
    }
}

/// Picks the asset to install from, preferring the architecture's own `.dmg`.
#[verifier::loop_isolation(false)]
pub fn select_dmg_asset(assets: &Vec<ReleaseAsset>, arch: &str) -> (r: Option<usize>)
    ensures
        match r {
            Some(i) => i < assets@.len() && selected_asset(assets@, arch@) == Some(i as int),
            None => selected_asset(assets@, arch@) is None,
        },
{
    let mut i: usize = 0;
    while i < assets.len()
        invariant
            i <= assets@.len(),
            forall|j: int| 0 <= j < i ==> !is_dmg_for_arch(assets@[j].name@, arch@),
        decreases assets@.len() - i,
    {
        if str_ends_with(assets[i].name.as_str(), ".dmg") && str_contains(
            assets[i].name.as_str(),
            arch,
        ) {
            proof {
                lemma_first_arch_dmg_is(assets@, arch@, i as int);
            }
            return Some(i);
        }
        i += 1;
    }
    proof {
        lemma_first_arch_dmg_is(assets@, arch@, assets@.len() as int);
    }
    let mut k: usize = 0;
    while k < assets.len()
        invariant
            k <= assets@.len(),
            first_arch_dmg(assets@, arch@) is None,
            forall|j: int| 0 <= j < k ==> !ends_with_spec(assets@[j].name@, ".dmg"@),
        decreases assets@.len() - k,
    {
        if str_ends_with(assets[k].name.as_str(), ".dmg") {
            proof {
                lemma_first_dmg_is(assets@, k as int);
            }
            return Some(k);
        }
        k += 1;
    }
    proof {
        lemma_first_dmg_is(assets@, assets@.len() as int);
    }
    None
}

/// What `decide_update` promises of its result, given the outcome of the
/// version comparison.
pub open spec fn decision_spec(
    release: Release,
    latest_is_newer: bool,
    arch: Seq<char>,
    r: Result<Option<UpdateInfo>, String>,
) -> bool {
    if !latest_is_newer {
        r == Ok::<Option<UpdateInfo>, String>(None)
    } else {
        match selected_asset(release.assets@, arch) {
            Some(i) => r is Ok && r->Ok_0 is Some && {
                let u = r->Ok_0->0;
                &&& u.version@ == strip_v_spec(release.tag_name@)
                &&& u.download_url@ == release.assets@[i].browser_download_url@
                &&& u.release_notes@ == (match release.body {
                    Some(b) => b@,
                    None => Seq::<char>::empty(),
                })
                &&& u.published_at@ == release.published_at@
            },
            None => r is Err && r->Err_0@ == "No DMG found for this architecture"@,
        }
    }
}

/// The update decision once the release feed is fetched and the version
/// comparison made: no update when the latest release is not newer; otherwise
/// the selected `.dmg` asset's URL under the stripped tag, with the release
/// notes (empty when the release carries none) and the publication time; an
/// error exactly when a newer release offers no `.dmg` at all.
pub fn decide_update(release: &Release, latest_is_newer: bool, arch_suffix: &str) -> (r: Result<
    Option<UpdateInfo>,
    String,
>)
    ensures
        decision_spec(*release, latest_is_newer, arch_suffix@, r),
{
    if !latest_is_newer {
        return Ok(None);
    }
    match select_dmg_asset(&release.assets, arch_suffix) {
        None => Err("No DMG found for this architecture".to_owned()),
        Some(i) => {
            let version = strip_v_prefix(release.tag_name.as_str());
            let download_url = release.assets[i].browser_download_url.clone();
            let release_notes = match &release.body {
                Some(b) => b.clone(),
                None => String::new(),
            };
            Ok(
                Some(
                    UpdateInfo {
                        version,
                        download_url,
                        release_notes,
                        published_at: release.published_at.clone(),
                    },
                ),
            )
        },
    }
}

#[verifier::external_type_specification]
#[verifier::external_body]
pub struct ExVersion(semver::Version);

/// Whether a string is a well-formed SemVer version: semver's grammar, a
/// function of the string alone, named rather than restated.
pub uninterp spec fn semver_ok(s: Seq<char>) -> bool;

/// Relies on semver::Version::parse: parses a SemVer string into an opaque
/// version value exactly when the string meets the SemVer grammar, named
/// `semver_ok`, and reports the parser's error otherwise.
#[verifier::external_body]
fn parse_version(text: &str) -> (r: Result<semver::Version, String>)
    ensures
        r is Ok <==> semver_ok(text@),
{
    semver::Version::parse(text).map_err(|e| format!("Invalid version: {}", e))
}

/// Relies on semver's derived `Ord` for Version: major, minor and patch
/// numerically, then pre-release and build identifiers as the crate orders
/// them. Which of two opaque versions precedes is left unstated; the caller
/// carries the outcome as a plain boolean.
#[verifier::external_body]
fn version_le(a: &semver::Version, b: &semver::Version) -> (r: bool) {
    a <= b
}

/// The full update check once the release feed is in hand: strips the tag,
/// parses both versions, compares them by SemVer precedence and decides as
/// `decide_update` does. An error when either version fails to parse; when
/// both parse, the decision holds for the comparison's outcome.
pub fn check_for_updates(release: &Release, current_version: &str, arch_suffix: &str) -> (r:
    Result<Option<UpdateInfo>, String>)
    ensures
        (!semver_ok(strip_v_spec(release.tag_name@)) || !semver_ok(current_version@)) ==> r is Err,
        (semver_ok(strip_v_spec(release.tag_name@)) && semver_ok(current_version@)) ==> exists|
            newer: bool,
        | decision_spec(*release, newer, arch_suffix@, r),
{
    let tag = strip_v_prefix(release.tag_name.as_str());
    let latest = match parse_version(tag.as_str()) {
        Ok(v) => v,
        Err(e) => {
            return Err(e);
        },
    };
    let current = match parse_version(current_version) {
        Ok(v) => v,
        Err(e) => {
            return Err(e);
        },
    };
    let newer = !version_le(&latest, &current);
    let r = decide_update(release, newer, arch_suffix);
    proof {
        assert(decision_spec(*release, newer, arch_suffix@, r));
    }
    r
}

} // verus!
