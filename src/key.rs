use vstd::prelude::*;

verus! {

/// The lowercase form of a string, as Rust's `str::to_lowercase` computes it.
pub uninterp spec fn lower_of(s: Seq<char>) -> Seq<char>;

/// Relies on `str::to_lowercase`: the result depends on the characters alone, and an
/// empty string stays empty.
#[verifier::external_body]
fn lowercase(s: &str) -> (r: String)
    ensures
        r@ == lower_of(s@),
        s@.len() == 0 ==> r@.len() == 0,
{
    s.to_lowercase()
}

/// The destination of one or more contracts, identified by its lowercase path so that
/// paths differing only in letter case name the same file.
#[derive(Debug, Hash)]
pub struct MappedArtifactFile {
    lower_case_path: String,
}

impl View for MappedArtifactFile {
    type V = Seq<char>;

    /// The normalized (lowercase) path.
    closed spec fn view(&self) -> Seq<char> {
        self.lower_case_path@
    }
}

impl MappedArtifactFile {
    /// The destination of `path`, normalized to lowercase once, here.
    pub fn new(path: &str) -> (r: Self)
        ensures
            r@ == lower_of(path@),
    {
        MappedArtifactFile { lower_case_path: lowercase(path) }
    }

    /// The normalized path.
    pub fn as_str(&self) -> (r: &str)
        ensures
            r@ == self@,
    {
        self.lower_case_path.as_str()
    }

    /// Whether two destinations are the same file.
    pub fn same_file(&self, other: &MappedArtifactFile) -> (r: bool)
        ensures
            r == (self@ == other@),
    {
        self.lower_case_path == other.lower_case_path
    }
}

impl PartialEq for MappedArtifactFile {
    fn eq(&self, other: &MappedArtifactFile) -> (r: bool) {
        self.lower_case_path == other.lower_case_path
    }
}

impl Eq for MappedArtifactFile {
}

impl vstd::std_specs::cmp::PartialEqSpecImpl for MappedArtifactFile {
    open spec fn obeys_eq_spec() -> bool {
        true
    }

    open spec fn eq_spec(&self, other: &MappedArtifactFile) -> bool {
        self@ == other@
    }
}

} // verus!
