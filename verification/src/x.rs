use vstd::prelude::*;
use crate::registries::RegistryId;
use crate::module::{opt_view, versions_view};
use crate::engine::wf_module;
use crate::normalize::{version_set_of, parse_version_strings};
use crate::shard::strings_view;
use crate::render::push_str_chars;
use crate::text::chars_to_string;

verus! {

// ---------------------------------------------------------------------------
// The `x` registry's raw records, as its API returns them, and their
// normalization into the common module record.
// ---------------------------------------------------------------------------

/// One search hit of the registry's module listing.
#[derive(Debug, Clone)]
pub struct SearchResult {
    pub name: String,
    pub description: Option<String>,
    pub star_count: u32,
}

/// One page of the module listing.
#[derive(Debug)]
pub struct Page {
    pub results: Vec<SearchResult>,
    pub total_count: u32,
}

/// The registry's version descriptor for a module.
#[derive(Debug, Clone)]
pub struct VersionInfo {
    pub latest: Option<String>,
    pub versions: Vec<String>,
}

/// One entry of a version's directory listing.
#[derive(Debug, Clone)]
pub struct DirListing {
    pub path: String,
    pub file_type: String,
    pub size: Option<usize>,
}

/// How a version was uploaded.
#[derive(Debug, Clone)]
pub struct UploadOptions {
    pub upload_tyupe: String,
    pub repository: String,
    pub subdir: Option<String>,
    pub git_ref: String,
}

/// The registry's metadata for one uploaded version.
#[derive(Debug, Clone)]
pub struct VersionMetaInfo {
    pub uploaded_at: Option<String>,
    pub directory_listing: Vec<DirListing>,
    pub upload_options: UploadOptions,
}

/// A raw module of this registry: a search hit with its version data.
#[derive(Debug)]
pub struct Module {
    pub name: String,
    pub description: Option<String>,
    pub star_count: u32,
    pub version_info: VersionInfo,
    pub version_meta: Option<VersionMetaInfo>,
}

impl Module {
    /// A raw module without version metadata.
    pub fn from(search: SearchResult, info: VersionInfo) -> (r: Module)
        ensures
            r.name == search.name,
            r.description == search.description,
            r.star_count == search.star_count,
            r.version_info == info,
            r.version_meta is None,
    {
        Module {
            name: search.name,
            description: search.description,
            star_count: search.star_count,
            version_info: info,
            version_meta: None,
        }
    }

    /// A raw module with version metadata.
    pub fn from_ext(search: SearchResult, info: VersionInfo, meta: VersionMetaInfo) -> (r:
        Module)
        ensures
            r.name == search.name,
            r.description == search.description,
            r.star_count == search.star_count,
            r.version_info == info,
            r.version_meta == Some(meta),
    {
        Module {
            name: search.name,
            description: search.description,
            star_count: search.star_count,
            version_info: info,
            version_meta: Some(meta),
        }
    }

    /// The repository URL the normalized record carries: the upload
    /// repository under its hosting site, when metadata is present.
    pub open spec fn repo_view(&self) -> Option<Seq<char>> {
        match self.version_meta {
            Some(meta) => Some("https://github.com/"@ + meta.upload_options.repository@),
            None => None,
        }
    }

    /// Normalizes this raw module: every version string that parses becomes
    /// one version (duplicates under version equality dropped, first kept);
    /// a module with an empty name or no valid version is excluded.
    pub fn normalize(&self) -> (r: Option<crate::module::Module>)
        ensures
            (r is Some <==> self.name@.len() > 0 && version_set_of(
                strings_view(self.version_info.versions@),
                false,
            ).len() > 0),
            r matches Some(m) ==> {
                &&& m@.name == self.name@
                &&& m@.desc == opt_view(self.description)
                &&& m@.repo == self.repo_view()
                &&& m@.reg == RegistryId::X
                &&& m@.vers == version_set_of(strings_view(self.version_info.versions@), false)
                &&& wf_module(m@)
            },
    {
        let vers = parse_version_strings(&self.version_info.versions, false);
        if self.name.unicode_len() == 0 || vers.len() == 0 {
            proof {
                assert(versions_view(vers@).len() == vers@.len());
            }
            return None;
        }
        let repo: Option<String> = match &self.version_meta {
            Some(meta) => {
                let mut out: Vec<char> = Vec::new();
                push_str_chars("https://github.com/", &mut out);
                push_str_chars(meta.upload_options.repository.as_str(), &mut out);
                Some(chars_to_string(&out))
            },
            None => None,
        };
        let m = crate::module::Module {
            name: self.name.clone(),
            desc: crate::module::copy_opt_string(&self.description),
            repo,
            reg: RegistryId::X,
            vers,
        };
        proof {
            assert(versions_view(m.vers@).len() == m.vers@.len());
        }
        Some(m)
    }
}

/// The number of pages needed to list `total` results at `limit` per page:
/// the least count whose capacity reaches the total.
pub fn total_pages(total: u32, limit: u16) -> (r: u32)
    requires
        limit > 0,
    ensures
        r as int * limit as int >= total as int,
        total as int > (r as int - 1) * limit as int,
{
    let l: u32 = limit as u32;
    let q: u32 = total / l;
    let rem: u32 = total % l;
    proof {
        vstd::arithmetic::div_mod::lemma_fundamental_div_mod(total as int, l as int);
        assert(total as int == (l as int) * (q as int) + (rem as int));
    }
    if rem == 0 {
        assert(q as int * l as int >= total as int) by (nonlinear_arith)
            requires
                total as int == (l as int) * (q as int),
        ;
        assert(total as int > (q as int - 1) * l as int) by (nonlinear_arith)
            requires
                total as int == (l as int) * (q as int),
                (l as int) > 0,
                total as int == 0 ==> q as int == 0,
        ;
        q
    } else {
        assert((q + 1) as int * l as int >= total as int) by (nonlinear_arith)
            requires
                total as int == (l as int) * (q as int) + (rem as int),
                0 < (rem as int),
                (rem as int) < (l as int),
        ;
        assert(total as int > q as int * l as int) by (nonlinear_arith)
            requires
                total as int == (l as int) * (q as int) + (rem as int),
                0 < (rem as int),
        ;
        // The quotient is below the total, which fits, so adding one is safe.
        assert((q as int) < u32::MAX as int) by (nonlinear_arith)
            requires
                total as int == (l as int) * (q as int) + (rem as int),
                0 < (rem as int),
                (rem as int) < (l as int),
                total as int <= u32::MAX as int,
                (q as int) >= 0,
        ;
        q + 1
    }
}

} // verus!
