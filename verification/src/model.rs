//! Packages and their dependencies as the hub presents them.

use vstd::prelude::*;
use vstd::string::*;

use crate::split::{trim, trim_start_by, trimmed, white_space};
use crate::status::{Reading, ReadingModel, Upstream, UpstreamModel};
use crate::text::{copy_texts, same_text};

verus! {

// ---------------------------------------------------------------------------
// Architectures
// ---------------------------------------------------------------------------

/// The one spelling of an architecture name.
pub open spec fn canonical(arch: Seq<char>) -> Seq<char> {
    let name = trimmed(arch);
    if name == "x86_64"@ {
        "amd64"@
    } else if name == "arm64"@ {
        "aarch64"@
    } else if name == "arm"@ || name == "armhf"@ || name == "armv7"@ || name == "armv7l"@ {
        "armv7"@
    } else {
        name
    }
}

/// The spelling of an architecture that recipe paths, manifests and status
/// comparisons share.
pub fn canonical_arch(arch: &str) -> (r: &str)
    ensures
        r@ == canonical(arch@),
{
    let name = trim(arch);
    if same_text(name, "x86_64") {
        "amd64"
    } else if same_text(name, "arm64") {
        "aarch64"
    } else if same_text(name, "arm") || same_text(name, "armhf") || same_text(name, "armv7")
        || same_text(name, "armv7l") {
        "armv7"
    } else {
        name
    }
}

/// A text whose ends are not white space is left as it is by trimming.
pub proof fn lemma_trim_keeps(s: Seq<char>)
    requires
        s.len() > 0,
        !white_space(s[0]),
        !white_space(s.last()),
    ensures
        trimmed(s) == s,
{
}

/// Trimming twice is trimming once.
pub proof fn lemma_trim_twice(s: Seq<char>)
    ensures
        trimmed(trimmed(s)) == trimmed(s),
        trimmed(s).len() > 0 ==> !white_space(trimmed(s)[0]) && !white_space(trimmed(s).last()),
{
    let p = |c: char| white_space(c);
    let from = trim_start_by(s, p);
    lemma_start_fixed(s, p);
    crate::split::lemma_trim_end_fixed(from, p);
    let t = trimmed(s);
    if t.len() > 0 {
        assert(t[0] == from[0]);
        lemma_trim_keeps(t);
    }
}

proof fn lemma_start_fixed(s: Seq<char>, p: spec_fn(char) -> bool)
    ensures
        trim_start_by(s, p).len() == 0 || !p(trim_start_by(s, p)[0]),
    decreases s.len(),
{
    if s.len() > 0 && p(s[0]) {
        lemma_start_fixed(s.drop_first(), p);
    }
}

/// The canonical spelling is a fixed point: spelling an architecture twice
/// is spelling it once.
pub proof fn lemma_canonical_twice(arch: Seq<char>)
    ensures
        canonical(canonical(arch)) == canonical(arch),
{
    reveal_strlit("x86_64");
    reveal_strlit("amd64");
    reveal_strlit("arm64");
    reveal_strlit("aarch64");
    reveal_strlit("arm");
    reveal_strlit("armhf");
    reveal_strlit("armv7");
    reveal_strlit("armv7l");
    lemma_trim_twice(arch);
    lemma_trim_keeps("amd64"@);
    lemma_trim_keeps("aarch64"@);
    lemma_trim_keeps("armv7"@);
    assert("amd64"@[1] == 'm' && "aarch64"@.len() == 7 && "armv7"@[1] == 'r');
    assert("arm64"@[1] == 'r');
}

// ---------------------------------------------------------------------------
// Dependencies
// ---------------------------------------------------------------------------

/// A dependency as Sage reads it. `op` is the sign of its version
/// constraint, absent where any version will do; `text` is the dependency
/// written out.
#[derive(Debug)]
pub struct Dependency {
    pub name: String,
    pub op: Option<String>,
    pub version: Option<String>,
    pub text: String,
}

#[verifier::ext_equal]
pub struct DependencyModel {
    pub name: Seq<char>,
    pub op: Option<Seq<char>>,
    pub version: Option<Seq<char>>,
    pub text: Seq<char>,
}

impl DeepView for Dependency {
    type V = DependencyModel;

    open spec fn deep_view(&self) -> DependencyModel {
        DependencyModel {
            name: self.name@,
            op: self.op.deep_view(),
            version: self.version.deep_view(),
            text: self.text@,
        }
    }
}

impl Clone for Dependency {
    fn clone(&self) -> (r: Self)
        ensures
            r.deep_view() == self.deep_view(),
    {
        Dependency {
            name: self.name.clone(),
            op: match &self.op {
                Some(v) => Some(v.clone()),
                None => None,
            },
            version: match &self.version {
                Some(v) => Some(v.clone()),
                None => None,
            },
            text: self.text.clone(),
        }
    }
}

/// Dependency text shown by the presentation layer.
#[derive(Debug, PartialEq, Eq)]
pub struct Dep {
    pub name: String,
    pub req: String,
}

#[verifier::ext_equal]
pub struct DepModel {
    pub name: Seq<char>,
    pub req: Seq<char>,
}

impl DeepView for Dep {
    type V = DepModel;

    open spec fn deep_view(&self) -> DepModel {
        DepModel { name: self.name@, req: self.req@ }
    }
}

impl Clone for Dep {
    fn clone(&self) -> (r: Self)
        ensures
            r == *self,
    {
        Dep { name: self.name.clone(), req: self.req.clone() }
    }
}

/// How a dependency is shown: its name and, where it is constrained, the
/// sign and the version behind a space.
pub open spec fn shown_dep(d: DependencyModel) -> DepModel {
    DepModel {
        name: d.name,
        req: match d.op {
            None => Seq::empty(),
            Some(op) => match d.version {
                None => op,
                Some(version) => op + seq![' '] + version,
            },
        },
    }
}

impl Dep {
    /// How a dependency is shown.
    pub fn from(dependency: &Dependency) -> (r: Dep)
        ensures
            r.deep_view() == shown_dep(dependency.deep_view()),
    {
        let mut req = String::new();
        if let Some(op) = &dependency.op {
            req.append(op);
            assert(req@ =~= op@);
            if let Some(version) = &dependency.version {
                req.push(' ');
                req.append(version);
                assert(req@ =~= op@ + seq![' '] + version@);
            }
        }
        Dep { name: dependency.name.clone(), req }
    }
}

/// What is shown for the dependency text `raw`: its parts where Sage can
/// read it, else the text itself as a name.
pub open spec fn shown_raw(raw: Seq<char>, parsed: Option<DependencyModel>) -> DepModel {
    match parsed {
        Some(d) => shown_dep(d),
        None => DepModel { name: raw, req: Seq::empty() },
    }
}

/// Shows a dependency text, given what Sage reads in it.
pub fn parse_dep(raw: &str, parsed: Option<&Dependency>) -> (r: Dep)
    ensures
        r.deep_view() == shown_raw(
            raw@,
            match parsed {
                Some(d) => Some(d.deep_view()),
                None => None,
            },
        ),
{
    match parsed {
        Some(dependency) => Dep::from(dependency),
        None => Dep { name: raw.to_owned(), req: String::new() },
    }
}

// ---------------------------------------------------------------------------
// Packages
// ---------------------------------------------------------------------------

/// A build tool that Sage manages, carried through in Sage's own encoding.
#[derive(Debug)]
pub struct ManagedBuildTool {
    pub encoded: Vec<u8>,
}

impl DeepView for ManagedBuildTool {
    type V = Seq<u8>;

    open spec fn deep_view(&self) -> Seq<u8> {
        self.encoded@
    }
}

impl Clone for ManagedBuildTool {
    fn clone(&self) -> (r: Self)
        ensures
            r.deep_view() == self.deep_view(),
    {
        let mut encoded: Vec<u8> = Vec::new();
        let mut i: usize = 0;
        while i < self.encoded.len()
            invariant
                i <= self.encoded.len(),
                encoded@ == self.encoded@.take(i as int),
            decreases self.encoded.len() - i,
        {
            encoded.push(self.encoded[i]);
            assert(self.encoded@.take(i as int).push(self.encoded@[i as int])
                =~= self.encoded@.take(i + 1));
            i += 1;
        }
        assert(encoded@ =~= self.encoded@);
        ManagedBuildTool { encoded }
    }
}

/// A list with copies of the same values.
pub fn copy_list<T: DeepView + Clone>(list: &Vec<T>) -> (r: Vec<T>)
    requires
        forall|a: T, b: T| #[trigger]
            call_ensures(T::clone, (&a,), b) ==> b.deep_view() == a.deep_view(),
    ensures
        r.deep_view() == list.deep_view(),
{
    let mut out: Vec<T> = Vec::new();
    let ghost all = list.deep_view();
    let mut i: usize = 0;
    assert(out.deep_view() =~= all.take(0));
    while i < list.len()
        invariant
            forall|a: T, b: T| #[trigger]
                call_ensures(T::clone, (&a,), b) ==> b.deep_view() == a.deep_view(),
            all == list.deep_view(),
            i <= list.len(),
            out.deep_view() == all.take(i as int),
        decreases list.len() - i,
    {
        let copy = list[i].clone();
        let ghost c = copy.deep_view();
        let ghost before = out.deep_view();
        out.push(copy);
        assert(out.deep_view() =~= before.push(c));
        assert(all.take(i as int).push(all[i as int]) =~= all.take(i + 1));
        i += 1;
    }
    assert(all.take(i as int) =~= all);
    out
}

/// A package as Sage describes it. `coordinate` is the full version written
/// out, and `reading` is what Sage reads in the version texts of the package.
#[derive(Debug)]
pub struct Package {
    pub schema_version: u32,
    pub name: String,
    pub slot: String,
    pub version: Upstream,
    pub release: u32,
    pub epoch: u32,
    pub coordinate: String,
    pub reading: Reading,
    pub arch: String,
    pub channel: String,
    pub description: String,
    pub license: String,
    pub dependencies: Vec<Dependency>,
    pub provides: Vec<String>,
    pub conflicts: Vec<String>,
    pub features: Vec<String>,
    pub installed_size: u64,
    pub managed_build_tools: Vec<ManagedBuildTool>,
}

#[verifier::ext_equal]
pub struct PackageModel {
    pub schema_version: u32,
    pub name: Seq<char>,
    pub slot: Seq<char>,
    pub version: UpstreamModel,
    pub release: u32,
    pub epoch: u32,
    pub coordinate: Seq<char>,
    pub reading: ReadingModel,
    pub arch: Seq<char>,
    pub channel: Seq<char>,
    pub description: Seq<char>,
    pub license: Seq<char>,
    pub dependencies: Seq<DependencyModel>,
    pub provides: Seq<Seq<char>>,
    pub conflicts: Seq<Seq<char>>,
    pub features: Seq<Seq<char>>,
    pub installed_size: u64,
    pub managed_build_tools: Seq<Seq<u8>>,
}

impl DeepView for Package {
    type V = PackageModel;

    open spec fn deep_view(&self) -> PackageModel {
        PackageModel {
            schema_version: self.schema_version,
            name: self.name@,
            slot: self.slot@,
            version: self.version.deep_view(),
            release: self.release,
            epoch: self.epoch,
            coordinate: self.coordinate@,
            reading: self.reading.deep_view(),
            arch: self.arch@,
            channel: self.channel@,
            description: self.description@,
            license: self.license@,
            dependencies: self.dependencies.deep_view(),
            provides: self.provides.deep_view(),
            conflicts: self.conflicts.deep_view(),
            features: self.features.deep_view(),
            installed_size: self.installed_size,
            managed_build_tools: self.managed_build_tools.deep_view(),
        }
    }
}

impl Clone for Package {
    fn clone(&self) -> (r: Self)
        ensures
            r.deep_view() == self.deep_view(),
    {
        Package {
            schema_version: self.schema_version,
            name: self.name.clone(),
            slot: self.slot.clone(),
            version: self.version.clone(),
            release: self.release,
            epoch: self.epoch,
            coordinate: self.coordinate.clone(),
            reading: self.reading.clone(),
            arch: self.arch.clone(),
            channel: self.channel.clone(),
            description: self.description.clone(),
            license: self.license.clone(),
            dependencies: copy_list(&self.dependencies),
            provides: copy_texts(&self.provides),
            conflicts: copy_texts(&self.conflicts),
            features: copy_texts(&self.features),
            installed_size: self.installed_size,
            managed_build_tools: copy_list(&self.managed_build_tools),
        }
    }
}

/// The dependencies of a package as they are shown.
pub fn shown_deps(dependencies: &Vec<Dependency>) -> (r: Vec<Dep>)
    ensures
        r.deep_view() == dependencies.deep_view().map_values(|d: DependencyModel| shown_dep(d)),
{
    let mut out: Vec<Dep> = Vec::new();
    let ghost want = dependencies.deep_view().map_values(|d: DependencyModel| shown_dep(d));
    let mut i: usize = 0;
    assert(out.deep_view() =~= want.take(0));
    while i < dependencies.len()
        invariant
            i <= dependencies.len(),
            want == dependencies.deep_view().map_values(|d: DependencyModel| shown_dep(d)),
            out.deep_view() == want.take(i as int),
        decreases dependencies.len() - i,
    {
        let dep = Dep::from(&dependencies[i]);
        let ghost d = dep.deep_view();
        let ghost before = out.deep_view();
        out.push(dep);
        assert(out.deep_view() =~= before.push(d));
        assert(want.take(i as int).push(want[i as int]) =~= want.take(i + 1));
        i += 1;
    }
    assert(want.take(i as int) =~= want);
    out
}

} // verus!
