use vstd::prelude::*;
use crate::errors::CassetError;
use crate::resolvers::AssetResolver;

verus! {

/// The erased form of every asset an application caches: one value type
/// standing for all of the application's concrete asset types, tagged so
/// that a typed view can be recovered safely. An application implements
/// this on an enum with one variant per asset type; `Meta` is the
/// matching erased form of the types' metadata. An implementation
/// compiled outside Verus is not checked against the obligations below;
/// the registry's guarantees hold as far as the implementation honors
/// them.
pub trait AssetUniverse: Sized {
    /// The erased form of the per-load metadata.
    type Meta;

    /// The tag of the concrete type this value came from.
    spec fn tag(&self) -> u64;

    /// Re-runs the load of the concrete type this value came from, with
    /// the metadata stored at first load; a reloaded value keeps the tag
    /// of the value it replaces.
    fn reload<S: AssetResolver>(
        &self,
        path: &str,
        source: &mut S,
        metadata: &Option<Self::Meta>,
    ) -> (r: Result<Self, CassetError>)
        ensures
            r matches Ok(v) ==> v.tag() == self.tag(),
    ;
}

/// The loadable capability: a concrete asset type produced from bytes,
/// able to erase itself into the universe `U` and to recover a typed
/// view from an erased value. As with `AssetUniverse`, an implementation
/// compiled outside Verus is an unchecked claim of these obligations.
pub trait Asset<U: AssetUniverse>: Sized {
    /// Per-load configuration handed to `load` and carried, erased,
    /// across reloads.
    type Metadata;

    /// The tag of this concrete type within the universe.
    spec fn type_tag() -> u64;

    /// The erased form of an asset of this type.
    spec fn spec_erase(self) -> U;

    /// The typed view of an erased value: `Some` exactly for the values
    /// this type erases to.
    spec fn spec_restore(u: U) -> Option<Self>;

    /// Produces the asset for `path` from the byte source. The load may
    /// resolve auxiliary paths through `source`; every path it resolves
    /// becomes a dependency edge of `path`, so a load should resolve
    /// exactly the paths whose later change must trigger its reload.
    fn load<S: AssetResolver>(
        path: &str,
        source: &mut S,
        metadata: Option<Self::Metadata>,
    ) -> Result<Self, CassetError>;

    fn erase(self) -> (u: U)
        ensures
            u == self.spec_erase(),
    ;

    fn restore(u: &U) -> (r: Option<Self>)
        ensures
            r == Self::spec_restore(*u),
    ;

    /// The erased form of this type's metadata.
    spec fn spec_erase_meta(m: Self::Metadata) -> U::Meta;

    fn erase_meta(m: &Self::Metadata) -> (r: U::Meta)
        ensures
            r == Self::spec_erase_meta(*m),
    ;

    /// Erasing an asset and restoring it gives the asset back, and the
    /// erased value carries this type's tag.
    proof fn lemma_restore_erase(a: Self)
        ensures
            Self::spec_restore(a.spec_erase()) == Some(a),
            a.spec_erase().tag() == Self::type_tag(),
    ;

    /// An erased value of another tag never restores under this type.
    proof fn lemma_restore_tag(u: U)
        ensures
            u.tag() != Self::type_tag() ==> Self::spec_restore(u) is None,
    ;
}

} // verus!
