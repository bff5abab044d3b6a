use vstd::prelude::*;
use crate::registries::RegistryId;
use crate::module::{opt_view, versions_view};
use crate::engine::wf_module;
use crate::normalize::{version_set_of, parse_version_strings};
use crate::shard::strings_view;

verus! {

// ---------------------------------------------------------------------------
// The `nest` registry's raw record and its normalization.  This registry
// expresses versions as upload names of the form `name@version`, so only
// entries carrying an `@` contribute.
// ---------------------------------------------------------------------------

/// A raw module of this registry, as its package listing returns it.
#[derive(Debug)]
pub struct Module {
    pub name: String,
    pub normalized_name: String,
    pub owner: String,
    pub description: Option<String>,
    pub repository: Option<String>,
    pub latest_version: Option<String>,
    pub latest_stable_version: Option<String>,
    pub package_upload_names: Vec<String>,
    pub locked: Option<bool>,
    pub malicious: Option<bool>,
    pub unlisted: Option<bool>,
    pub created_at: Option<String>,
    pub updated_at: Option<String>,
}

impl Module {
    /// Normalizes this raw module: each upload name following the
    /// `name@version` convention contributes its version when it parses
    /// (duplicates under version equality dropped, first kept); a module
    /// with an empty name or no valid version is excluded.
    pub fn normalize(&self) -> (r: Option<crate::module::Module>)
        ensures
            (r is Some <==> self.name@.len() > 0 && version_set_of(
                strings_view(self.package_upload_names@),
                true,
            ).len() > 0),
            r matches Some(m) ==> {
                &&& m@.name == self.name@
                &&& m@.desc == opt_view(self.description)
                &&& m@.repo == opt_view(self.repository)
                &&& m@.reg == RegistryId::Nest
                &&& m@.vers == version_set_of(strings_view(self.package_upload_names@), true)
                &&& wf_module(m@)
            },
    {
        let vers = parse_version_strings(&self.package_upload_names, true);
        if self.name.unicode_len() == 0 || vers.len() == 0 {
            proof {
                assert(versions_view(vers@).len() == vers@.len());
            }
            return None;
        }
        let m = crate::module::Module {
            name: self.name.clone(),
            desc: crate::module::copy_opt_string(&self.description),
            repo: crate::module::copy_opt_string(&self.repository),
            reg: RegistryId::Nest,
            vers,
        };
        proof {
            assert(versions_view(m.vers@).len() == m.vers@.len());
        }
        Some(m)
    }
}

} // verus!
