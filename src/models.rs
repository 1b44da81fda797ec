use vstd::prelude::*;

verus! {

/// One package of an environment, as parsed from its descriptor and
/// possibly enriched later with size and release information.
#[derive(Clone, Debug)]
pub struct Package {
    /// Name of the package, unique within an environment.
    pub name: String,
    /// Version of the package, if declared.
    pub version: Option<String>,
    /// Build string, if declared.
    pub build: Option<String>,
    /// Channel the package comes from.
    pub channel: Option<String>,
    /// Size in bytes, if known.
    pub size: Option<u64>,
    /// Whether the version is pinned.
    pub is_pinned: bool,
    /// Whether a newer release exists.
    pub is_outdated: bool,
    /// Latest known release, if any.
    pub latest_version: Option<String>,
}

/// A copy of an optional text.
pub fn copy_text(o: &Option<String>) -> (r: Option<String>)
    ensures
        r == *o,
{
    match o {
        Some(s) => Some(s.clone()),
        None => None,
    }
}

impl Package {
    /// A field-by-field copy.
    pub fn duplicate(&self) -> (r: Package)
        ensures
            r == *self,
    {
        Package {
            name: self.name.clone(),
            version: copy_text(&self.version),
            build: copy_text(&self.build),
            channel: copy_text(&self.channel),
            size: self.size,
            is_pinned: self.is_pinned,
            is_outdated: self.is_outdated,
            latest_version: copy_text(&self.latest_version),
        }
    }
}

/// An environment as its descriptor file declares it.
#[derive(Clone, Debug)]
pub struct CondaEnvironment {
    /// Name of the environment.
    pub name: Option<String>,
    /// Channels to install from.
    pub channels: Vec<String>,
    /// Declared dependencies.
    pub dependencies: Vec<Dependency>,
}

/// One declared dependency: a plain specification such as
/// `numpy=1.19.2`, or a nested section such as the `pip` list.
#[derive(Clone, Debug)]
pub enum Dependency {
    /// A package specification.
    Simple(String),
    /// A nested section.
    Complex(ComplexDependency),
}

/// A nested dependency section, such as `pip`.
#[derive(Clone, Debug)]
pub struct ComplexDependency {
    /// Name of the section.
    pub name: Option<String>,
    /// The pip requirements it lists.
    pub pip: Option<Vec<String>>,
}

/// A recommendation for tidying an environment.
#[derive(Clone, Debug)]
pub struct Recommendation {
    /// What is recommended.
    pub description: String,
    /// A value attached to it (for instance a count).
    pub value: String,
    /// Optional explanation.
    pub details: Option<String>,
}

/// The result of analysing one environment.
#[derive(Clone, Debug)]
pub struct EnvironmentAnalysis {
    /// Name of the environment.
    pub name: Option<String>,
    /// Its packages.
    pub packages: Vec<Package>,
    /// Sum of the known package sizes.
    pub total_size: Option<u64>,
    /// Number of pinned packages.
    pub pinned_count: usize,
    /// Number of outdated packages.
    pub outdated_count: usize,
    /// Recommendations derived from the analysis.
    pub recommendations: Vec<Recommendation>,
}

} // verus!
