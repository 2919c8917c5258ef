//! The supported PEP 440 subset and its exact counterpart among proto's versions.
use crate::config::all_digits;
use crate::package::{available, Package, Project};
use crate::sorted::{insert_sorted, lemma_insert_at, lemma_sort_dedup, sort_dedup, sorted_by, total_order};
use crate::text::{
    decimal, is_digit, lemma_decimal_digits, lemma_split_append, lemma_split_without_sep, push_char, push_decimal,
    split_on, split_text, views,
};
use vstd::prelude::*;

verus! {

/// The kind of a PEP 440 pre-release.
#[derive(Debug, Clone, Copy, PartialEq, Eq, Structural)]
pub enum PreKind {
    Alpha,
    Beta,
    Rc,
}

/// A pre-release: its kind and number, as in `1.2.3rc4`.
#[derive(Debug, Clone, Copy, PartialEq, Eq, Structural)]
pub struct Prerelease {
    pub kind: PreKind,
    pub number: u64,
}

/// What the logic reads of a parsed PEP 440 version.
#[derive(Debug)]
pub struct Pep440Version {
    pub epoch: u64,
    pub release: Vec<u64>,
    pub pre: Option<Prerelease>,
    pub post: Option<u64>,
    pub dev: Option<u64>,
    pub local: bool,
}

/// The mathematical value of a `Pep440Version`.
pub struct Pep440Model {
    pub epoch: u64,
    pub release: Seq<u64>,
    pub pre: Option<Prerelease>,
    pub post: Option<u64>,
    pub dev: Option<u64>,
    pub local: bool,
}

impl View for Pep440Version {
    type V = Pep440Model;

    open spec fn view(&self) -> Pep440Model {
        Pep440Model {
            epoch: self.epoch,
            release: self.release@,
            pre: self.pre,
            post: self.post,
            dev: self.dev,
            local: self.local,
        }
    }
}

/// A proto version with numeric release parts and an optional a/b/rc
/// pre-release, written `1.2.3` or `1.2.3-rc.4`. Proto holds the three
/// release parts as `u32`.
#[derive(Debug, Clone, Copy, PartialEq, Eq, Structural)]
pub struct ProtoVersion {
    pub major: u32,
    pub minor: u32,
    pub patch: u32,
    pub pre: Option<Prerelease>,
}

pub open spec fn kind_rank(k: PreKind) -> int {
    match k {
        PreKind::Alpha => 0,
        PreKind::Beta => 1,
        PreKind::Rc => 2,
    }
}

/// Pre-release precedence: any pre-release comes before the release itself,
/// then kinds in the order a, b, rc, then numbers.
pub open spec fn pre_lt(a: Option<Prerelease>, b: Option<Prerelease>) -> bool {
    match (a, b) {
        (None, _) => false,
        (Some(_), None) => true,
        (Some(x), Some(y)) => kind_rank(x.kind) < kind_rank(y.kind) || (x.kind == y.kind
            && x.number < y.number),
    }
}

/// Version precedence: major, minor, patch, then the pre-release. On the
/// versions written here it is the order of proto's `VersionSpec` (whose
/// pre-release identifiers "a" < "b" < "rc" compare as text, and the numbers
/// after them, written without leading zeros, compare as numbers).
pub open spec fn version_lt(a: ProtoVersion, b: ProtoVersion) -> bool {
    if a.major != b.major {
        a.major < b.major
    } else if a.minor != b.minor {
        a.minor < b.minor
    } else if a.patch != b.patch {
        a.patch < b.patch
    } else {
        pre_lt(a.pre, b.pre)
    }
}

pub open spec fn version_order() -> spec_fn(ProtoVersion, ProtoVersion) -> bool {
    |a: ProtoVersion, b: ProtoVersion| version_lt(a, b)
}

pub proof fn lemma_version_order()
    ensures
        total_order(version_order()),
{
    assert forall|a: ProtoVersion, b: ProtoVersion| a != b implies #[trigger] version_order()(a, b)
        || version_order()(b, a) by {
        if a.major == b.major && a.minor == b.minor && a.patch == b.patch {
            match (a.pre, b.pre) {
                (Some(x), Some(y)) => {
                    if x.kind == y.kind && x.number == y.number {
                        assert(x == y);
                    }
                },
                _ => {},
            }
        }
    }
}

/// Whether `a` precedes `b`.
pub fn version_less(a: &ProtoVersion, b: &ProtoVersion) -> (r: bool)
    ensures
        r == version_lt(*a, *b),
{
    if a.major != b.major {
        return a.major < b.major;
    }
    if a.minor != b.minor {
        return a.minor < b.minor;
    }
    if a.patch != b.patch {
        return a.patch < b.patch;
    }
    match (a.pre, b.pre) {
        (None, _) => false,
        (Some(_), None) => true,
        (Some(x), Some(y)) => {
            let rx: u8 = match x.kind {
                PreKind::Alpha => 0,
                PreKind::Beta => 1,
                PreKind::Rc => 2,
            };
            let ry: u8 = match y.kind {
                PreKind::Alpha => 0,
                PreKind::Beta => 1,
                PreKind::Rc => 2,
            };
            rx < ry || (rx == ry && x.number < y.number)
        },
    }
}

/// The release part at `i`, or 0 where the release is shorter.
pub open spec fn release_part(release: Seq<u64>, i: int) -> u64 {
    if i < release.len() {
        release[i]
    } else {
        0
    }
}

/// The proto version of a PEP 440 version. Numeric releases of one to three
/// parts and a/b/rc pre-releases map one to one; epochs, post, dev, local and
/// four-part releases have no proto version, nor have release parts above
/// what proto holds.
pub open spec fn spec_from_pep440(p: Pep440Model) -> Option<ProtoVersion> {
    if p.epoch != 0 || p.release.len() == 0 || p.release.len() > 3 || p.post is Some || p.dev is Some
        || p.local {
        None
    } else {
        let r0 = release_part(p.release, 0);
        let r1 = release_part(p.release, 1);
        let r2 = release_part(p.release, 2);
        if r0 > u32::MAX || r1 > u32::MAX || r2 > u32::MAX {
            None
        } else {
            Some(ProtoVersion { major: r0 as u32, minor: r1 as u32, patch: r2 as u32, pre: p.pre })
        }
    }
}

/// `pep440_rs::Version::from_str`: the version that PEP 440 reads in a text,
/// if it reads one.
pub uninterp spec fn pep440_parse(text: Seq<char>) -> Option<Pep440Model>;

/// The view of an optional parsed version.
pub open spec fn parsed_view(r: Option<Pep440Version>) -> Option<Pep440Model> {
    match r {
        Some(v) => Some(v@),
        None => None,
    }
}

/// Parses with `pep440_rs::Version::from_str` and reads the parts the logic
/// needs. The parser always reads at least one release number.
#[verifier::external_body]
fn parse_pep440(value: &str) -> (r: Option<Pep440Version>)
    ensures
        parsed_view(r) == pep440_parse(value@),
        r matches Some(v) ==> v.release@.len() >= 1,
{
    let v: pep440_rs::Version = match value.parse() {
        Ok(v) => v,
        Err(_) => return None,
    };
    let pre = match v.pre() {
        Some(p) => Some(Prerelease { kind: match p.kind {
            pep440_rs::PrereleaseKind::Alpha => PreKind::Alpha,
            pep440_rs::PrereleaseKind::Beta => PreKind::Beta,
            pep440_rs::PrereleaseKind::Rc => PreKind::Rc,
        }, number: p.number }),
        None => None,
    };
    Some(Pep440Version { epoch: v.epoch(), release: v.release().to_vec(), pre, post: v.post(), dev: v.dev(), local: v.is_local() })
}

/// Maps a parsed PEP 440 version to its proto version, if it has one.
pub fn from_pep440(v: &Pep440Version) -> (r: Option<ProtoVersion>)
    requires
        v.release@.len() >= 1,
    ensures
        r == spec_from_pep440(v@),
{
    let n = v.release.len();
    if v.epoch != 0 || n > 3 || v.post.is_some() || v.dev.is_some() || v.local {
        return None;
    }
    let r0 = v.release[0];
    let r1 = if n > 1 { v.release[1] } else { 0 };
    let r2 = if n > 2 { v.release[2] } else { 0 };
    if r0 > 0xffff_ffffu64 || r1 > 0xffff_ffffu64 || r2 > 0xffff_ffffu64 {
        return None;
    }
    Some(ProtoVersion { major: r0 as u32, minor: r1 as u32, patch: r2 as u32, pre: v.pre })
}

/// The proto version of a text, read as PEP 440.
pub open spec fn proto_of(text: Seq<char>) -> Option<ProtoVersion> {
    match pep440_parse(text) {
        Some(p) => spec_from_pep440(p),
        None => None,
    }
}

/// Numeric releases and a/b/rc prereleases have an unambiguous semver mapping.
/// Epoch, post, dev, local, and four-part releases are intentionally excluded.
pub fn to_proto(value: &str) -> (r: Option<ProtoVersion>)
    ensures
        r == proto_of(value@),
{
    match parse_pep440(value) {
        Some(v) => from_pep440(&v),
        None => None,
    }
}


/// A version as proto resolves it: its scope and build metadata, numbers and
/// pre-release text, as in `vendor-1.2.3-rc.4+build.5`.
#[derive(Debug)]
pub struct SpecVersion {
    pub scope: Option<String>,
    pub major: u32,
    pub minor: u32,
    pub patch: u32,
    pub prerelease: Option<String>,
    pub build: Option<String>,
}

/// A version specification that proto hands to an install: the canary
/// target, an alias, or a version.
#[derive(Debug)]
pub enum ResolvedSpec {
    Canary,
    Alias(String),
    Version(SpecVersion),
}

/// The text of a pre-release kind, as PEP 440 writes it.
pub open spec fn kind_text(k: PreKind) -> Seq<char> {
    match k {
        PreKind::Alpha => "a"@,
        PreKind::Beta => "b"@,
        PreKind::Rc => "rc"@,
    }
}

/// `major.minor.patch` in decimal.
pub open spec fn release_text(major: u32, minor: u32, patch: u32) -> Seq<char> {
    decimal(major as nat) + seq!['.'] + decimal(minor as nat) + seq!['.'] + decimal(patch as nat)
}

/// The pre-release text that proto holds, such as `rc.4`.
pub open spec fn pre_text(p: Prerelease) -> Seq<char> {
    kind_text(p.kind) + seq!['.'] + decimal(p.number as nat)
}

/// How proto writes the version, such as `1.2.3-rc.4`.
pub open spec fn proto_text(v: ProtoVersion) -> Seq<char> {
    match v.pre {
        None => release_text(v.major, v.minor, v.patch),
        Some(p) => release_text(v.major, v.minor, v.patch) + seq!['-'] + pre_text(p),
    }
}

/// The error for a version specification with no supported Python form.
pub open spec fn unsupported_message() -> Seq<char> {
    "Use a numeric release (1.2.3) or an a/b/rc prerelease (1.2.3-rc.1). Epoch, post, dev, local, and four-part versions are not supported."@
}

/// A pre-release kind that Python writes the same way.
pub open spec fn is_kind_text(k: Seq<char>) -> bool {
    k == "a"@ || k == "b"@ || k == "rc"@
}

/// What `to_python` gives for a specification.
pub open spec fn python_of(spec: ResolvedSpec) -> Result<Seq<char>, Seq<char>> {
    match spec {
        ResolvedSpec::Version(v) => {
            if v.scope is Some || v.build is Some {
                Err(unsupported_message())
            } else {
                let base = release_text(v.major, v.minor, v.patch);
                match v.prerelease {
                    None => Ok(base),
                    Some(pre) => {
                        let parts = split_on(pre@, '.');
                        if parts.len() == 2 && is_kind_text(parts[0]) && parts[1].len() > 0
                            && all_digits(parts[1]) {
                            Ok(base + parts[0] + parts[1])
                        } else {
                            Err(unsupported_message())
                        }
                    },
                }
            }
        },
        _ => Err(unsupported_message()),
    }
}

fn push_kind(s: &mut String, k: PreKind)
    ensures
        final(s)@ == old(s)@ + kind_text(k),
{
    match k {
        PreKind::Alpha => s.append("a"),
        PreKind::Beta => s.append("b"),
        PreKind::Rc => s.append("rc"),
    }
}

fn push_release(s: &mut String, major: u32, minor: u32, patch: u32)
    ensures
        final(s)@ == old(s)@ + release_text(major, minor, patch),
{
    let ghost s0 = s@;
    push_decimal(s, major as u64);
    push_char(s, '.');
    push_decimal(s, minor as u64);
    push_char(s, '.');
    push_decimal(s, patch as u64);
    assert(s@ =~= s0 + release_text(major, minor, patch));
}

impl ProtoVersion {
    /// The pre-release text that proto holds, such as `rc.4`.
    pub fn prerelease_text(&self) -> (r: Option<String>)
        ensures
            match self.pre {
                None => r is None,
                Some(p) => r matches Some(t) && t@ == pre_text(p),
            },
    {
        match self.pre {
            None => None,
            Some(p) => {
                let mut t = String::new();
                push_kind(&mut t, p.kind);
                push_char(&mut t, '.');
                push_decimal(&mut t, p.number);
                assert(t@ =~= pre_text(p));
                Some(t)
            },
        }
    }

    /// The version as proto resolves it: no scope, no build metadata.
    pub fn to_spec_version(&self) -> (r: SpecVersion)
        ensures
            r.scope is None,
            r.build is None,
            r.major == self.major,
            r.minor == self.minor,
            r.patch == self.patch,
            match self.pre {
                None => r.prerelease is None,
                Some(p) => r.prerelease matches Some(t) && t@ == pre_text(p),
            },
    {
        SpecVersion {
            scope: None,
            major: self.major,
            minor: self.minor,
            patch: self.patch,
            prerelease: self.prerelease_text(),
            build: None,
        }
    }

    /// How proto writes the version, such as `1.2.3-rc.4`.
    pub fn to_text(&self) -> (r: String)
        ensures
            r@ == proto_text(*self),
    {
        let mut r = String::new();
        push_release(&mut r, self.major, self.minor, self.patch);
        match self.prerelease_text() {
            None => {},
            Some(t) => {
                push_char(&mut r, '-');
                r.append(t.as_str());
            },
        }
        r
    }
}

/// The Python version for a proto specification, such as `1.2.3rc4` for
/// `1.2.3-rc.4`.
pub fn to_python(spec: &ResolvedSpec) -> (r: Result<String, String>)
    ensures
        match r {
            Ok(s) => python_of(*spec) == Ok::<Seq<char>, Seq<char>>(s@),
            Err(e) => python_of(*spec) == Err::<Seq<char>, Seq<char>>(e@),
        },
{
    let invalid = String::from_str(
        "Use a numeric release (1.2.3) or an a/b/rc prerelease (1.2.3-rc.1). Epoch, post, dev, local, and four-part versions are not supported.",
    );
    let version = match spec {
        ResolvedSpec::Version(v) => v,
        _ => return Err(invalid),
    };
    if version.scope.is_some() || version.build.is_some() {
        return Err(invalid);
    }
    let mut python = String::new();
    push_release(&mut python, version.major, version.minor, version.patch);
    match &version.prerelease {
        None => {},
        Some(pre) => {
            let parts = split_text(pre.as_str(), '.');
            let ghost ps = views(parts@);
            if parts.len() != 2 {
                return Err(invalid);
            }
            let a = String::from_str("a");
            let b = String::from_str("b");
            let rc = String::from_str("rc");
            if !(parts[0] == a || parts[0] == b || parts[0] == rc) {
                return Err(invalid);
            }
            if parts[1].as_str().unicode_len() == 0 || !crate::config::is_all_digits(parts[1].as_str()) {
                return Err(invalid);
            }
            python.append(parts[0].as_str());
            python.append(parts[1].as_str());
        },
    }
    Ok(python)
}


/// The last version in `vs` that is no pre-release.
pub open spec fn latest_release(vs: Seq<ProtoVersion>) -> Option<ProtoVersion>
    decreases vs.len(),
{
    if vs.len() == 0 {
        None
    } else if vs.last().pre is None {
        Some(vs.last())
    } else {
        latest_release(vs.drop_last())
    }
}

/// The proto versions of the texts that have one, in order.
pub open spec fn proto_candidates(values: Seq<Seq<char>>) -> Seq<ProtoVersion>
    decreases values.len(),
{
    if values.len() == 0 {
        Seq::empty()
    } else {
        let prev = proto_candidates(values.drop_last());
        match proto_of(values.last()) {
            Some(v) => prev.push(v),
            None => prev,
        }
    }
}

/// The error when no release has a proto version.
pub open spec fn no_releases_message() -> Seq<char> {
    "No supported, non-yanked wheel releases were found on PyPI."@
}

/// The versions that proto may install, the latest stable one, and the
/// `latest` alias that points at it.
#[derive(Debug)]
pub struct VersionListing {
    pub versions: Vec<ProtoVersion>,
    pub latest: Option<ProtoVersion>,
    pub aliases: Vec<(String, ProtoVersion)>,
}

/// `l` lists the candidates in order, each once, with the latest stable
/// version and its alias.
pub open spec fn lists(l: VersionListing, candidates: Seq<ProtoVersion>) -> bool {
    &&& candidates.len() > 0
    &&& l.versions@ == sort_dedup(candidates, version_order())
    &&& l.latest == latest_release(l.versions@)
    &&& match l.latest {
        None => l.aliases@.len() == 0,
        Some(v) => l.aliases@.len() == 1 && l.aliases@[0].0@ == "latest"@ && l.aliases@[0].1 == v,
    }
}

fn insert_version(sorted: &mut Vec<ProtoVersion>, x: ProtoVersion)
    requires
        sorted_by(old(sorted)@, version_order()),
    ensures
        final(sorted)@ == insert_sorted(old(sorted)@, x, version_order()),
{
    proof {
        lemma_version_order();
    }
    let mut j: usize = 0;
    while j < sorted.len() && version_less(&sorted[j], &x)
        invariant
            sorted@ == old(sorted)@,
            j <= sorted.len(),
            forall|k: int| 0 <= k < j ==> #[trigger] version_order()(sorted@[k], x),
        decreases sorted.len() - j,
    {
        j = j + 1;
    }
    proof {
        lemma_insert_at(sorted@, x, version_order(), j as int);
    }
    if j < sorted.len() && !version_less(&x, &sorted[j]) {
        return;
    }
    sorted.insert(j, x);
}

/// Orders the candidate versions, drops repeats, and finds the latest stable
/// one; fails when there is no candidate.
pub fn collect_versions(candidates: &Vec<ProtoVersion>) -> (r: Result<VersionListing, String>)
    ensures
        match r {
            Ok(l) => lists(l, candidates@),
            Err(e) => candidates@.len() == 0 && e@ == no_releases_message(),
        },
{
    proof {
        lemma_version_order();
    }
    let mut versions: Vec<ProtoVersion> = Vec::new();
    let mut i: usize = 0;
    while i < candidates.len()
        invariant
            i <= candidates.len(),
            versions@ == sort_dedup(candidates@.take(i as int), version_order()),
            sorted_by(versions@, version_order()),
            total_order(version_order()),
        decreases candidates.len() - i,
    {
        assert(candidates@.take(i + 1).drop_last() =~= candidates@.take(i as int));
        insert_version(&mut versions, candidates[i]);
        proof {
            lemma_sort_dedup(candidates@.take(i + 1), version_order());
        }
        i = i + 1;
    }
    assert(candidates@.take(candidates.len() as int) =~= candidates@);
    if versions.len() == 0 {
        if candidates.len() > 0 {
            proof {
                lemma_sort_dedup(candidates@, version_order());
            }
            assert(candidates@.contains(candidates@[0]));
            assert(versions@.contains(candidates@[0]));
        }
        return Err(String::from_str("No supported, non-yanked wheel releases were found on PyPI."));
    }
    let mut k: usize = versions.len();
    let mut latest: Option<ProtoVersion> = None;
    assert(versions@.take(k as int) =~= versions@);
    while k > 0
        invariant_except_break
            latest is None,
        invariant
            k <= versions.len(),
            latest_release(versions@) == latest_release(versions@.take(k as int)),
        ensures
            latest == latest_release(versions@),
        decreases k,
    {
        assert(versions@.take(k as int).drop_last() =~= versions@.take(k - 1));
        assert(versions@.take(k as int).last() == versions@[k - 1]);
        if versions[k - 1].pre.is_none() {
            latest = Some(versions[k - 1]);
            break;
        }
        k = k - 1;
    }
    let mut aliases: Vec<(String, ProtoVersion)> = Vec::new();
    match latest {
        Some(v) => aliases.push((String::from_str("latest"), v)),
        None => {},
    }
    Ok(VersionListing { versions, latest, aliases })
}

/// Maps each text to its proto version, skipping those without one, then
/// collects them.
pub fn load_versions(values: &Vec<String>) -> (r: Result<VersionListing, String>)
    ensures
        match r {
            Ok(l) => lists(l, proto_candidates(views(values@))),
            Err(e) => proto_candidates(views(values@)).len() == 0 && e@ == no_releases_message(),
        },
{
    let mut candidates: Vec<ProtoVersion> = Vec::new();
    let mut i: usize = 0;
    while i < values.len()
        invariant
            i <= values.len(),
            candidates@ == proto_candidates(views(values@).take(i as int)),
        decreases values.len() - i,
    {
        assert(views(values@).take(i + 1).drop_last() =~= views(values@).take(i as int));
        match to_proto(values[i].as_str()) {
            Some(v) => candidates.push(v),
            None => {},
        }
        i = i + 1;
    }
    assert(views(values@).take(values.len() as int) =~= views(values@));
    collect_versions(&candidates)
}


/// The versions of a project on PyPI that proto may install: those of its
/// releases that have an installable wheel and a proto version. An error
/// names the package.
pub fn discover_versions(package: &Package, project: &Project) -> (r: Result<VersionListing, String>)
    ensures
        match r {
            Ok(l) => lists(l, proto_candidates(available(project.releases@))),
            Err(e) => proto_candidates(available(project.releases@)).len() == 0 && e@ == package.name@
                + ": "@ + no_releases_message(),
        },
{
    let values = project.available_versions();
    match load_versions(&values) {
        Ok(l) => Ok(l),
        Err(message) => {
            let mut e = package.name.clone();
            e.append(": ");
            e.append(message.as_str());
            Err(e)
        },
    }
}


/// The Python text of a supported PEP 440 version, with its release padded
/// to three parts: `1.2.0rc4` for `1.2rc4`.
pub open spec fn python_text(p: Pep440Model) -> Seq<char> {
    let base = release_text(
        release_part(p.release, 0) as u32,
        release_part(p.release, 1) as u32,
        release_part(p.release, 2) as u32,
    );
    match p.pre {
        None => base,
        Some(q) => base + kind_text(q.kind) + decimal(q.number as nat),
    }
}

/// A PEP 440 version that has a proto version comes back from it as the same
/// release and pre-release, padded to three parts: mapping to proto and back
/// changes no supported version.
pub proof fn law_python_roundtrip(p: Pep440Model, spec: SpecVersion)
    requires
        spec_from_pep440(p) is Some,
        spec.scope is None,
        spec.build is None,
        spec.major == spec_from_pep440(p)->Some_0.major,
        spec.minor == spec_from_pep440(p)->Some_0.minor,
        spec.patch == spec_from_pep440(p)->Some_0.patch,
        match p.pre {
            None => spec.prerelease is None,
            Some(q) => spec.prerelease matches Some(t) && t@ == pre_text(q),
        },
    ensures
        python_of(ResolvedSpec::Version(spec)) == Ok::<Seq<char>, Seq<char>>(python_text(p)),
{
    match p.pre {
        None => {},
        Some(q) => {
            let k = kind_text(q.kind);
            let d = decimal(q.number as nat);
            lemma_decimal_digits(q.number as nat);
            reveal_strlit("a");
            reveal_strlit("b");
            reveal_strlit("rc");
            assert(!d.contains('.')) by {
                if d.contains('.') {
                    let i = choose|i: int| 0 <= i < d.len() && d[i] == '.';
                    assert(is_digit(d[i]));
                }
            }
            assert(!k.contains('.'));
            lemma_split_without_sep(k, '.');
            lemma_split_append(k, d, '.');
            let parts = split_on(pre_text(q), '.');
            assert(parts =~= seq![k, d]);
            assert(all_digits(parts[1]));
        },
    }
}

/// Proto holds a supported PEP 440 version with the same release numbers and
/// pre-release; versions with an epoch, post, dev or local part, or with more
/// than three release parts, have no proto version.
pub proof fn law_supported_subset(p: Pep440Model)
    ensures
        spec_from_pep440(p) matches Some(v) ==> {
            &&& p.epoch == 0 && p.post is None && p.dev is None && !p.local
            &&& 1 <= p.release.len() <= 3
            &&& v.major == p.release[0]
            &&& v.minor == release_part(p.release, 1)
            &&& v.patch == release_part(p.release, 2)
            &&& v.pre == p.pre
        },
        (p.epoch != 0 || p.post is Some || p.dev is Some || p.local || p.release.len() > 3)
            ==> spec_from_pep440(p) is None,
{
}

/// The latest stable version of sorted versions is one of them, is no
/// pre-release, and no stable version follows it; there is none only when
/// every version is a pre-release.
pub proof fn lemma_latest_release(vs: Seq<ProtoVersion>)
    requires
        sorted_by(vs, version_order()),
    ensures
        latest_release(vs) matches Some(v) ==> {
            &&& vs.contains(v)
            &&& v.pre is None
            &&& forall|k: int| 0 <= k < vs.len() && (#[trigger] vs[k]).pre is None ==> !version_lt(v, vs[k])
        },
        latest_release(vs) is None ==> forall|k: int| 0 <= k < vs.len() ==> (#[trigger] vs[k]).pre is Some,
    decreases vs.len(),
{
    lemma_version_order();
    if vs.len() > 0 {
        let p = vs.drop_last();
        assert(sorted_by(p, version_order())) by {
            assert forall|i: int, j: int| 0 <= i < j < p.len() implies #[trigger] version_order()(p[i], p[j]) by {
                assert(version_order()(vs[i], vs[j]));
            }
        }
        lemma_latest_release(p);
        let last = vs.last();
        if last.pre is None {
            assert(vs.contains(vs[vs.len() - 1]));
            assert forall|k: int| 0 <= k < vs.len() && (#[trigger] vs[k]).pre is None implies !version_lt(last, vs[k]) by {
                if k < vs.len() - 1 {
                    assert(version_order()(vs[k], vs[vs.len() - 1]));
                    assert(!version_order()(vs[k], vs[k]));
                    if version_lt(last, vs[k]) {
                        assert(version_order()(vs[k], vs[k]));
                    }
                } else {
                    assert(!version_order()(last, last));
                }
            }
        } else {
            match latest_release(p) {
                Some(v) => {
                    let i = choose|i: int| 0 <= i < p.len() && p[i] == v;
                    assert(vs[i] == v);
                    assert forall|k: int| 0 <= k < vs.len() && (#[trigger] vs[k]).pre is None implies !version_lt(v, vs[k]) by {
                        if k < vs.len() - 1 {
                            assert(p[k] == vs[k]);
                        }
                    }
                },
                None => {
                    assert forall|k: int| 0 <= k < vs.len() implies (#[trigger] vs[k]).pre is Some by {
                        if k < vs.len() - 1 {
                            assert(p[k] == vs[k]);
                        }
                    }
                },
            }
        }
    }
}

/// A listing holds each candidate version once, in ascending order, and its
/// latest version is the greatest stable one, with the `latest` alias on it;
/// there is none only when every candidate is a pre-release.
pub proof fn law_listing(l: VersionListing, candidates: Seq<ProtoVersion>)
    requires
        lists(l, candidates),
    ensures
        sorted_by(l.versions@, version_order()),
        forall|v: ProtoVersion| #[trigger] l.versions@.contains(v) <==> candidates.contains(v),
        l.latest matches Some(v) ==> {
            &&& candidates.contains(v)
            &&& v.pre is None
            &&& forall|w: ProtoVersion| #[trigger] candidates.contains(w) && w.pre is None ==> !version_lt(v, w)
            &&& l.aliases@.len() == 1 && l.aliases@[0].0@ == "latest"@ && l.aliases@[0].1 == v
        },
        l.latest is None ==> forall|w: ProtoVersion| #[trigger] candidates.contains(w) ==> w.pre is Some,
{
    lemma_version_order();
    lemma_sort_dedup(candidates, version_order());
    let vs = l.versions@;
    lemma_latest_release(vs);
    match l.latest {
        Some(v) => {
            assert forall|w: ProtoVersion| #[trigger] candidates.contains(w) && w.pre is None implies !version_lt(v, w) by {
                assert(vs.contains(w));
                let k = choose|k: int| 0 <= k < vs.len() && vs[k] == w;
            }
        },
        None => {
            assert forall|w: ProtoVersion| #[trigger] candidates.contains(w) implies w.pre is Some by {
                assert(vs.contains(w));
                let k = choose|k: int| 0 <= k < vs.len() && vs[k] == w;
            }
        },
    }
}

} // verus!
