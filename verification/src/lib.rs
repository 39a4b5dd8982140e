pub mod fsmodel;
pub mod modgen;
pub mod paths;
pub mod relocate;
pub mod subst;
pub mod walker;

use vstd::prelude::*;
use vstd::string::StrSliceExecFns;

use crate::subst::replace_in_str;
use crate::subst::replace_seq;

verus! {

/// The values that drive one project generation: what the user answered to
/// the prompts, already trimmed and known to be non-empty.
pub struct ProjectGenArgs {
    pub version: String,
    pub name: String,
    pub description: String,
    pub author: String,
    pub package: String,
    pub modid: String,
    pub entry_point: String,
    pub version_is_commit: bool,
}

impl ProjectGenArgs {
    /// Builds the argument set from the raw prompt answers, in prompt order.
    /// The version answer is aliased: the release name `1.16` stands for the
    /// branch `master`. A forty-character version is taken for a commit hash.
    pub fn from_user_input(
        version: String,
        name: String,
        description: String,
        author: String,
        package: String,
        modid: String,
        entry_point: String,
    ) -> (r: Self)
        ensures
            r.version@ == replace_seq(version@, "1.16"@, "master"@),
            r.version_is_commit == (r.version@.len() == 40),
            r.name@ == name@,
            r.description@ == description@,
            r.author@ == author@,
            r.package@ == package@,
            r.modid@ == modid@,
            r.entry_point@ == entry_point@,
    {
        let version = replace_in_str(version.as_str(), "1.16", "master");
        let version_is_commit = version.as_str().unicode_len() == 40;
        ProjectGenArgs {
            version,
            name,
            description,
            author,
            package,
            modid,
            entry_point,
            version_is_commit,
        }
    }
}

} // verus!
