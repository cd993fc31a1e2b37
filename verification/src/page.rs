//! The outcome types of effective page-resource resolution.

use std::collections::BTreeSet;

use vstd::prelude::*;
use vstd::string::StringSliceAdditionalSpecFns;

use crate::encrypt::dict_of;
use crate::filters::entry;
use crate::object::{Dict, Name, ObjRef, Object, PdfValue};
use crate::store::{resolve_spec, ObjectStore, StoreView};

verus! {

/// Origin of a successfully resolved effective page resource dictionary.
#[derive(Clone, Copy, Debug, PartialEq, Eq)]
pub enum EffectiveResourceOrigin {
    /// The page leaf declares `/Resources`.
    Direct,
    /// A page-tree ancestor declares `/Resources`.
    Inherited,
    /// No page-tree node declares resources.
    Absent,
}

/// Checked effective page resources.
#[derive(Debug, PartialEq)]
pub struct EffectiveResources {
    /// Resolved dictionary, empty when no resources are declared.
    pub resources: Dict,
    /// Where the dictionary came from.
    pub origin: EffectiveResourceOrigin,
}

/// Why strict effective-resource resolution could not establish a dictionary.
#[derive(Clone, Copy, Debug, PartialEq, Eq)]
pub enum ResourceResolutionError {
    /// A `/Parent` chain repeated an object.
    ParentCycle,
    /// The document recursion-depth bound was exceeded.
    DepthExceeded,
    /// A page-tree node or resource reference could not be resolved.
    UnresolvedReference,
    /// A resolved node or `/Resources` value had the wrong object type.
    WrongType,
    /// `/Parent` was present but was not an indirect reference.
    InvalidParent,
}

/// What strict resolution of a page's effective resources gives: the
/// dictionary (as a map) and where it came from.
pub open spec fn resources_from(v: StoreView, page: ObjRef, cur: ObjRef, depth: nat, visited: Set<(u32, u16)>)
    -> Result<(Map<Seq<u8>, PdfValue>, EffectiveResourceOrigin), ResourceResolutionError>
    decreases v.max_depth - depth,
{
    let d = depth + 1;
    if d > v.max_depth {
        Err(ResourceResolutionError::DepthExceeded)
    } else if visited.contains((cur.num, cur.gen)) {
        Err(ResourceResolutionError::ParentCycle)
    } else {
        match resolve_spec(v, cur) {
            Err(_) => Err(ResourceResolutionError::UnresolvedReference),
            Ok(node) => match dict_of(node) {
                None => Err(ResourceResolutionError::WrongType),
                Some(m) => {
                    let found: Option<Result<(Map<Seq<u8>, PdfValue>, EffectiveResourceOrigin), ResourceResolutionError>> =
                        match entry(m, "Resources".spec_bytes()) {
                        None => None,
                        Some(value) => {
                            let resolved = match value {
                                PdfValue::Reference(x) => resolve_spec(v, x),
                                other => Ok(other),
                            };
                            match resolved {
                                Err(_) => Some(Err(ResourceResolutionError::UnresolvedReference)),
                                Ok(PdfValue::Null) => if value is Reference {
                                    Some(Err(ResourceResolutionError::UnresolvedReference))
                                } else {
                                    None
                                },
                                Ok(res) => match dict_of(res) {
                                    None => Some(Err(ResourceResolutionError::WrongType)),
                                    Some(rm) => Some(Ok((rm, if cur == page {
                                        EffectiveResourceOrigin::Direct
                                    } else {
                                        EffectiveResourceOrigin::Inherited
                                    }))),
                                },
                            }
                        },
                    };
                    match found {
                        Some(out) => out,
                        None => match entry(m, "Parent".spec_bytes()) {
                            Some(PdfValue::Reference(parent)) => resources_from(v, page, parent, d, visited.insert((cur.num, cur.gen))),
                            Some(_) => Err(ResourceResolutionError::InvalidParent),
                            None => Ok((Map::empty(), EffectiveResourceOrigin::Absent)),
                        },
                    }
                },
            },
        }
    }
}

/// Resolves the effective resources of the page leaf `page` with explicit
/// cycle, depth, reference and type failures: the first `/Resources` found
/// walking from the leaf up the `/Parent` chain (a direct `null` value is
/// skipped), or an empty dictionary when no node declares one.
pub fn effective_resources_checked(store: &ObjectStore, page: ObjRef)
    -> (r: Result<EffectiveResources, ResourceResolutionError>)
    ensures
        match (r, resources_from(store@, page, page, 0, Set::empty())) {
            (Ok(er), Ok((m, origin))) => er.resources.map() == m && er.origin == origin,
            (Err(e), Err(f)) => e == f,
            _ => false,
        },
{
    let ghost v = store@;
    let mut current = page;
    let mut visited: BTreeSet<(u32, u16)> = BTreeSet::new();
    let mut depth: u32 = 0;
    loop
        invariant
            v == store@,
            depth <= v.max_depth,
            resources_from(v, page, current, depth as nat, visited@) == resources_from(v, page, page, 0, Set::empty()),
        decreases v.max_depth - depth,
    {
        if depth >= store.max_depth() {
            return Err(ResourceResolutionError::DepthExceeded);
        }
        depth = depth + 1;
        if !visited.insert((current.num, current.gen)) {
            return Err(ResourceResolutionError::ParentCycle);
        }
        let node = match store.resolve(current) {
            Ok(o) => o,
            Err(_) => {
                return Err(ResourceResolutionError::UnresolvedReference);
            },
        };
        let dict = match node.as_dict() {
            Some(d) => d,
            None => {
                return Err(ResourceResolutionError::WrongType);
            },
        };
        match dict.get(&Name::new("Resources")) {
            Some(value) => {
                let is_ref = match value {
                    Object::Reference(_) => true,
                    _ => false,
                };
                let resolved = match value {
                    Object::Reference(x) => match store.resolve(*x) {
                        Ok(o) => o,
                        Err(_) => {
                            return Err(ResourceResolutionError::UnresolvedReference);
                        },
                    },
                    direct => direct.copy(),
                };
                if is_ref && resolved.is_null() {
                    return Err(ResourceResolutionError::UnresolvedReference);
                }
                if !resolved.is_null() {
                    let resources = match resolved.as_dict() {
                        Some(d) => d.copy(),
                        None => {
                            return Err(ResourceResolutionError::WrongType);
                        },
                    };
                    let origin = if current.num == page.num && current.gen == page.gen {
                        EffectiveResourceOrigin::Direct
                    } else {
                        EffectiveResourceOrigin::Inherited
                    };
                    return Ok(EffectiveResources { resources, origin });
                }
            },
            None => {},
        }
        match dict.get(&Name::new("Parent")) {
            Some(Object::Reference(parent)) => {
                current = *parent;
            },
            Some(_) => {
                return Err(ResourceResolutionError::InvalidParent);
            },
            None => {
                return Ok(EffectiveResources { resources: Dict::new(), origin: EffectiveResourceOrigin::Absent });
            },
        }
    }
}


/// The stable diagnostic code of a resource-resolution failure.
pub open spec fn resource_error_code_spec(e: ResourceResolutionError) -> &'static str {
    match e {
        ResourceResolutionError::ParentCycle => "page_resource_parent_cycle",
        ResourceResolutionError::DepthExceeded => "page_resource_depth_exceeded",
        ResourceResolutionError::UnresolvedReference => "page_resource_reference_unresolved",
        ResourceResolutionError::WrongType => "page_resources_wrong_type",
        ResourceResolutionError::InvalidParent => "page_resource_parent_invalid",
    }
}

/// The stable diagnostic code of a resource-resolution failure.
pub fn resource_error_code(e: ResourceResolutionError) -> (r: &'static str)
    ensures
        r == resource_error_code_spec(e),
{
    match e {
        ResourceResolutionError::ParentCycle => "page_resource_parent_cycle",
        ResourceResolutionError::DepthExceeded => "page_resource_depth_exceeded",
        ResourceResolutionError::UnresolvedReference => "page_resource_reference_unresolved",
        ResourceResolutionError::WrongType => "page_resources_wrong_type",
        ResourceResolutionError::InvalidParent => "page_resource_parent_invalid",
    }
}

/// What strict paint accounting starts from: the page dictionary with its
/// effective resources put in place, the resources themselves, whether they
/// were inherited, and the diagnostic code of a resolution failure.
pub struct PaintInputs {
    /// The page dictionary (empty when the page does not resolve to one),
    /// its `/Resources` replaced by the effective resources.
    pub page_dict: Dict,
    /// The effective resources (empty when resolution failed).
    pub resources: Dict,
    /// Whether the resources came from a page-tree ancestor.
    pub inherited: bool,
    /// The diagnostic code of a resolution failure, if any.
    pub error_code: Option<&'static str>,
}

/// The inputs of strict paint accounting for page `page`: its dictionary
/// with the effective resources materialized, those resources (empty on
/// failure), whether they were inherited, and the failure's code.
pub fn paint_inputs(store: &ObjectStore, page: ObjRef) -> (r: PaintInputs)
    ensures
        ({
            let checked = resources_from(store@, page, page, 0, Set::empty());
            let res_map = match checked {
                Ok((m, _)) => m,
                Err(_) => Map::empty(),
            };
            let base = match crate::inventory::page_dict_spec(store@, page) {
                Some(m) => m,
                None => Map::empty(),
            };
            &&& r.resources.map() == res_map
            &&& r.page_dict.map() == base.insert("Resources".spec_bytes(), PdfValue::Dictionary(res_map))
            &&& r.inherited == (checked matches Ok((_, origin)) && origin == EffectiveResourceOrigin::Inherited)
            &&& r.error_code == (match checked {
                Ok(_) => None,
                Err(e) => Some(resource_error_code_spec(e)),
            })
        }),
{
    let mut page_dict = match store.resolve(page) {
        Ok(o) => match o.as_dict() {
            Some(d) => d.copy(),
            None => Dict::new(),
        },
        Err(_) => Dict::new(),
    };
    let (resources, inherited, error_code) = match effective_resources_checked(store, page) {
        Ok(checked) => {
            let inherited = match checked.origin {
                EffectiveResourceOrigin::Inherited => true,
                _ => false,
            };
            (checked.resources, inherited, None)
        },
        Err(e) => (Dict::new(), false, Some(resource_error_code(e))),
    };
    page_dict.insert(Name::new("Resources"), Object::Dictionary(resources.copy()));
    PaintInputs { page_dict, resources, inherited, error_code }
}

} // verus!
