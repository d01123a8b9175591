//! The registry endpoint a plain package request resolves to.

use crate::shared::Package;
use crate::semver::push_char;
use vstd::prelude::*;
use vstd::string::*;

verus! {

/// The URL text a request addresses: the registry root, the optional
/// `@author/` scope, the name, and the version or `latest`.
pub open spec fn spec_registry_url(p: &Package) -> Seq<char> {
    "https://registry.npmjs.org/"@ + (match p.author {
        Some(a) => seq!['@'] + a@ + seq!['/'],
        None => Seq::<char>::empty(),
    }) + p.name@ + seq!['/'] + (match p.version {
        Some(v) => v.complete@,
        None => "latest"@,
    })
}

/// Builds the registry URL for a request, as `spec_registry_url` names
/// it.
pub fn build_registry_url(package: &Package) -> (r: String)
    ensures
        r@ == spec_registry_url(package),
{
    let mut url = String::from_str("https://registry.npmjs.org/");
    match &package.author {
        Some(a) => {
            push_char(&mut url, '@');
            url.append(a.as_str());
            push_char(&mut url, '/');
        },
        None => {},
    }
    url.append(package.name.as_str());
    push_char(&mut url, '/');
    match &package.version {
        Some(v) => {
            url.append(v.complete.as_str());
        },
        None => {
            url.append("latest");
        },
    }
    proof {
        assert(url@ =~= spec_registry_url(package));
    }
    url
}

} // verus!
