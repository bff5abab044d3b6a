use vstd::prelude::*;
use crate::text::string_to_chars;

verus! {

// ---------------------------------------------------------------------------
// The closed set of supported registries, with their static descriptors.
// ---------------------------------------------------------------------------

/// Identity of a supported registry.
#[derive(Debug, Clone, Copy, Hash, PartialEq, Eq, Structural)]
pub enum RegistryId {
    X,
    Nest,
}

/// The lower-case display name of a registry, also its directory name in the
/// index tree.
pub open spec fn registry_id_name(id: RegistryId) -> Seq<char> {
    match id {
        RegistryId::X => seq!['x'],
        RegistryId::Nest => seq!['n', 'e', 's', 't'],
    }
}

impl RegistryId {
    /// The registry's display name.
    pub fn name(&self) -> (r: String)
        ensures
            r@ == registry_id_name(*self),
    {
        match self {
            RegistryId::X => {
                let r = String::from_str("x");
                proof {
                    reveal_strlit("x");
                    assert(r@ =~= seq!['x']);
                }
                r
            },
            RegistryId::Nest => {
                let r = String::from_str("nest");
                proof {
                    reveal_strlit("nest");
                    assert(r@ =~= seq!['n', 'e', 's', 't']);
                }
                r
            },
        }
    }

    /// Reads a registry identity from its name; unknown names fall back to
    /// the default registry.
    pub fn from_name(s: &str) -> (r: RegistryId)
        ensures
            r == registry_id_of(s@),
    {
        let cs: Vec<char> = string_to_chars(s);
        if cs.len() == 1 && cs[0] == 'x' {
            proof {
                assert(cs@ =~= seq!['x']);
            }
            RegistryId::X
        } else if cs.len() == 4 && cs[0] == 'n' && cs[1] == 'e' && cs[2] == 's' && cs[3]
            == 't' {
            proof {
                assert(cs@ =~= seq!['n', 'e', 's', 't']);
            }
            RegistryId::Nest
        } else {
            proof {
                if cs@ == seq!['n', 'e', 's', 't'] {
                    assert(cs@.len() == 4 && cs@[0] == 'n' && cs@[1] == 'e' && cs@[2] == 's'
                        && cs@[3] == 't');
                }
            }
            RegistryId::X
        }
    }
}

/// The identity a name denotes: `x` and `nest` name themselves; anything
/// else falls back to the default registry.
pub open spec fn registry_id_of(s: Seq<char>) -> RegistryId {
    if s == seq!['n', 'e', 's', 't'] {
        RegistryId::Nest
    } else {
        RegistryId::X
    }
}

/// A registry's canonical name denotes that registry.
pub proof fn lemma_registry_name_id(id: RegistryId)
    ensures
        registry_id_of(registry_id_name(id)) == id,
{
    match id {
        RegistryId::X => {
            assert(registry_id_name(id).len() == 1);
        },
        RegistryId::Nest => {},
    }
}

/// Static descriptor of a registry: the template for raw-content URLs.
#[derive(Debug, Clone)]
pub struct RegistryInfo {
    pub raw_url: String,
}

/// The raw-content URL template of each registry.
pub open spec fn registry_raw_url(id: RegistryId) -> Seq<char> {
    match id {
        RegistryId::X => "https://cdn.deno.land/{name}/versions/{version}/raw/{...rest}"@,
        RegistryId::Nest => "https://x.nest.land/{name}@{version}/{...rest}"@,
    }
}

/// The static descriptor of a registry.
pub fn registry_info(id: RegistryId) -> (r: RegistryInfo)
    ensures
        r.raw_url@ == registry_raw_url(id),
{
    match id {
        RegistryId::X => RegistryInfo {
            raw_url: String::from_str(
                "https://cdn.deno.land/{name}/versions/{version}/raw/{...rest}",
            ),
        },
        RegistryId::Nest => RegistryInfo {
            raw_url: String::from_str("https://x.nest.land/{name}@{version}/{...rest}"),
        },
    }
}

} // verus!
