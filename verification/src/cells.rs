//! Confined maps of memory cells.

use crate::types::{AuthToken, CellAddr, Opid, StateCell};
use amplify::confinement::{LargeOrdMap, SmallOrdMap};
use ultrasonic::StateData;
use vstd::prelude::*;

verus! {

/// Largest number of entries in a map of the contract state.
pub const MAX_STATE: u32 = 0xFFFF_FFFF;

/// Largest number of entries in a map of destroyed cells.
pub const MAX_DESTROYED: u16 = 0xFFFF;

/// The list holds the entries of the map, in the ascending order of the addresses.
pub open spec fn lists<V>(list: Seq<(CellAddr, V)>, map: Map<CellAddr, V>) -> bool {
    &&& forall|i: int, j: int|
        0 <= i < j < list.len() ==> (#[trigger] list[i]).0.precedes((#[trigger] list[j]).0)
    &&& forall|i: int|
        0 <= i < list.len() ==> map.contains_key((#[trigger] list[i]).0) && map[list[i].0] == list[i].1
    &&& forall|addr: CellAddr| #[trigger]
        map.contains_key(addr) ==> exists|i: int| 0 <= i < list.len() && (#[trigger] list[i]).0 == addr
}

/// The list holds the entries of the map, in the ascending order of the tokens.
pub open spec fn lists_tokens(
    list: Seq<(AuthToken, CellAddr)>,
    map: Map<AuthToken, CellAddr>,
) -> bool {
    &&& forall|i: int, j: int|
        0 <= i < j < list.len() ==> (#[trigger] list[i]).0.precedes((#[trigger] list[j]).0)
    &&& forall|i: int|
        0 <= i < list.len() ==> map.contains_key((#[trigger] list[i]).0) && map[list[i].0] == list[i].1
    &&& forall|token: AuthToken| #[trigger]
        map.contains_key(token) ==> exists|i: int|
            0 <= i < list.len() && (#[trigger] list[i]).0 == token
}

/// The entries of the map which are not outputs of the given operation.
pub open spec fn without_outputs<V>(map: Map<CellAddr, V>, opid: Opid) -> Map<CellAddr, V> {
    map.restrict(Set::new(|addr: CellAddr| addr.opid != opid))
}

/// Tests whether a cell is not an output of the given operation.
fn is_foreign(key: &(u128, u128, u16), opid: Opid) -> (r: bool)
    ensures
        r == !(key.0 == opid.hi && key.1 == opid.lo),
{
    !(key.0 == opid.hi && key.1 == opid.lo)
}

/// Cells by their tokens of authority.
#[verifier::external_body]
#[derive(Debug)]
pub struct AuthMap {
    inner: LargeOrdMap<(u128, u128), CellAddr>,
}

/// The entries of the map of the tokens of authority.
pub uninterp spec fn auth_content(map: AuthMap) -> Map<AuthToken, CellAddr>;

impl AuthMap {
    /// `std::collections::BTreeMap::len`, by dereference of the confined map.
    #[verifier::external_body]
    pub(crate) fn len(&self) -> (r: usize)
        ensures
            r == auth_content(*self).len(),
    {
        self.inner.len()
    }

    /// `amplify::confinement::LargeOrdMap::new`: an empty map.
    #[verifier::external_body]
    pub(crate) fn new() -> (r: AuthMap)
        ensures
            auth_content(r) == (Map::<AuthToken, CellAddr>::empty()),
    {
        AuthMap { inner: LargeOrdMap::new() }
    }

    /// `std::collections::BTreeMap::get`, by dereference of the confined map.
    #[verifier::external_body]
    pub(crate) fn get(&self, auth: AuthToken) -> (r: Option<CellAddr>)
        ensures
            r == (if auth_content(*self).contains_key(auth) {
                Some(auth_content(*self)[auth])
            } else {
                None
            }),
    {
        self.inner.get(&(auth.hi, auth.lo)).copied()
    }

    /// `amplify::confinement::Confined::insert`: adds or replaces an entry. A full map is refused.
    #[verifier::external_body]
    pub(crate) fn insert(&mut self, auth: AuthToken, addr: CellAddr)
        requires
            auth_content(*old(self)).dom().finite(),
            auth_content(*old(self)).len() < MAX_STATE,
        ensures
            auth_content(*final(self)) == auth_content(*old(self)).insert(auth, addr),
    {
        self.inner.insert((auth.hi, auth.lo), addr).expect("too many authentication tokens");
    }

    /// `amplify::confinement::Confined::remove`: takes an entry out, if it is there.
    #[verifier::external_body]
    pub(crate) fn remove(&mut self, auth: AuthToken)
        ensures
            auth_content(*final(self)) == auth_content(*old(self)).remove(auth),
    {
        self.inner.remove(&(auth.hi, auth.lo)).expect("zero-sized is allowed");
    }

    /// `std::collections::BTreeMap::iter`, by dereference of the confined map: the entries in the
    /// ascending order of the keys.
    #[verifier::external_body]
    pub(crate) fn entries(&self) -> (r: Vec<(AuthToken, CellAddr)>)
        ensures
            lists_tokens(r@, auth_content(*self)),
    {
        let plain = |key: &(u128, u128)| AuthToken { hi: key.0, lo: key.1 };
        self.inner.iter().map(|(key, addr)| (plain(key), *addr)).collect()
    }
}

/// Immutable cells by their addresses.
#[verifier::external_body]
#[derive(Debug)]
pub struct GlobalMap {
    inner: LargeOrdMap<(u128, u128, u16), StateData>,
}

/// The entries of the map: immutable cells by their addresses.
pub uninterp spec fn global_content(map: GlobalMap) -> Map<CellAddr, StateData>;

impl GlobalMap {
    /// `std::collections::BTreeMap::len`, by dereference of the confined map.
    #[verifier::external_body]
    pub(crate) fn len(&self) -> (r: usize)
        ensures
            r == global_content(*self).len(),
    {
        self.inner.len()
    }

    /// `amplify::confinement::LargeOrdMap::new`: an empty map.
    #[verifier::external_body]
    pub(crate) fn new() -> (r: GlobalMap)
        ensures
            global_content(r) == (Map::<CellAddr, StateData>::empty()),
    {
        GlobalMap { inner: LargeOrdMap::new() }
    }

    /// `std::collections::BTreeMap::get`, by dereference of the confined map.
    #[verifier::external_body]
    pub(crate) fn get(&self, addr: CellAddr) -> (r: Option<&StateData>)
        ensures
            match r {
                Some(cell) => global_content(*self).contains_key(addr) && *cell == global_content(*self)[addr],
                None => !global_content(*self).contains_key(addr),
            },
    {
        self.inner.get(&(addr.opid.hi, addr.opid.lo, addr.pos))
    }

    /// `amplify::confinement::Confined::insert`: adds or replaces an entry. A full map is refused.
    #[verifier::external_body]
    pub(crate) fn insert(&mut self, addr: CellAddr, cell: StateData)
        requires
            global_content(*old(self)).dom().finite(),
            global_content(*old(self)).len() < MAX_STATE,
        ensures
            global_content(*final(self)) == global_content(*old(self)).insert(addr, cell),
    {
        self.inner.insert((addr.opid.hi, addr.opid.lo, addr.pos), cell).expect("state too large");
    }

    /// `amplify::confinement::Confined::retain`: keeps the entries which satisfy the predicate.
    #[verifier::external_body]
    pub(crate) fn remove_outputs(&mut self, opid: Opid)
        ensures
            global_content(*final(self)) == without_outputs(global_content(*old(self)), opid),
    {
        self.inner.retain(|key, _| is_foreign(key, opid));
    }

    /// `std::collections::BTreeMap::iter`, by dereference of the confined map: the entries in the
    /// ascending order of the keys.
    #[verifier::external_body]
    pub(crate) fn entries(&self) -> (r: Vec<(CellAddr, StateData)>)
        ensures
            lists(r@, global_content(*self)),
    {
        let plain = |key: &(u128, u128, u16)| CellAddr { opid: Opid { hi: key.0, lo: key.1 }, pos: key.2 };
        self.inner.iter().map(|(key, cell)| (plain(key), cell.clone())).collect()
    }
}

/// Destructible cells by their addresses.
#[verifier::external_body]
#[derive(Debug)]
pub struct OwnedMap {
    inner: LargeOrdMap<(u128, u128, u16), StateCell>,
}

/// The entries of the map: destructible cells by their addresses.
pub uninterp spec fn owned_content(map: OwnedMap) -> Map<CellAddr, StateCell>;

impl OwnedMap {
    /// `std::collections::BTreeMap::len`, by dereference of the confined map.
    #[verifier::external_body]
    pub(crate) fn len(&self) -> (r: usize)
        ensures
            r == owned_content(*self).len(),
    {
        self.inner.len()
    }

    /// `amplify::confinement::LargeOrdMap::new`: an empty map.
    #[verifier::external_body]
    pub(crate) fn new() -> (r: OwnedMap)
        ensures
            owned_content(r) == (Map::<CellAddr, StateCell>::empty()),
    {
        OwnedMap { inner: LargeOrdMap::new() }
    }

    /// `std::collections::BTreeMap::get`, by dereference of the confined map.
    #[verifier::external_body]
    pub(crate) fn get(&self, addr: CellAddr) -> (r: Option<StateCell>)
        ensures
            match r {
                Some(cell) => owned_content(*self).contains_key(addr) && cell == owned_content(*self)[addr],
                None => !owned_content(*self).contains_key(addr),
            },
    {
        self.inner.get(&(addr.opid.hi, addr.opid.lo, addr.pos)).copied()
    }

    /// `amplify::confinement::Confined::insert`: adds or replaces an entry. A full map is refused.
    #[verifier::external_body]
    pub(crate) fn insert(&mut self, addr: CellAddr, cell: StateCell)
        requires
            owned_content(*old(self)).dom().finite(),
            owned_content(*old(self)).len() < MAX_STATE,
        ensures
            owned_content(*final(self)) == owned_content(*old(self)).insert(addr, cell),
    {
        self.inner.insert((addr.opid.hi, addr.opid.lo, addr.pos), cell).expect("state too large");
    }

    /// `amplify::confinement::Confined::remove`: takes an entry out, if it is there.
    #[verifier::external_body]
    pub(crate) fn remove(&mut self, addr: CellAddr) -> (r: Option<StateCell>)
        ensures
            owned_content(*final(self)) == owned_content(*old(self)).remove(addr),
            match r {
                Some(cell) => owned_content(*old(self)).contains_key(addr) && cell == owned_content(*old(self))[addr],
                None => !owned_content(*old(self)).contains_key(addr),
            },
    {
        self.inner.remove(&(addr.opid.hi, addr.opid.lo, addr.pos)).expect("zero-sized confinement is allowed")
    }

    /// `amplify::confinement::Confined::retain`: keeps the entries which satisfy the predicate.
    #[verifier::external_body]
    pub(crate) fn remove_outputs(&mut self, opid: Opid)
        ensures
            owned_content(*final(self)) == without_outputs(owned_content(*old(self)), opid),
    {
        self.inner.retain(|key, _| is_foreign(key, opid));
    }

    /// `std::collections::BTreeMap::iter`, by dereference of the confined map: the entries in the
    /// ascending order of the keys.
    #[verifier::external_body]
    pub(crate) fn entries(&self) -> (r: Vec<(CellAddr, StateCell)>)
        ensures
            lists(r@, owned_content(*self)),
    {
        let plain = |key: &(u128, u128, u16)| CellAddr { opid: Opid { hi: key.0, lo: key.1 }, pos: key.2 };
        self.inner.iter().map(|(key, cell)| (plain(key), cell.clone())).collect()
    }
}

/// Cells destroyed by an operation, by their addresses.
#[verifier::external_body]
#[derive(Debug)]
pub struct DestroyedMap {
    inner: SmallOrdMap<(u128, u128, u16), StateCell>,
}

/// The entries of the map: cells destroyed by an operation, by their addresses.
pub uninterp spec fn destroyed_content(map: DestroyedMap) -> Map<CellAddr, StateCell>;

impl DestroyedMap {
    /// `amplify::confinement::SmallOrdMap::new`: an empty map.
    #[verifier::external_body]
    pub(crate) fn new() -> (r: DestroyedMap)
        ensures
            destroyed_content(r) == (Map::<CellAddr, StateCell>::empty()),
    {
        DestroyedMap { inner: SmallOrdMap::new() }
    }

    /// `amplify::confinement::Confined::insert`: adds or replaces an entry. A full map is refused.
    #[verifier::external_body]
    pub(crate) fn insert(&mut self, addr: CellAddr, cell: StateCell)
        requires
            destroyed_content(*old(self)).dom().finite(),
            destroyed_content(*old(self)).len() < MAX_DESTROYED,
        ensures
            destroyed_content(*final(self)) == destroyed_content(*old(self)).insert(addr, cell),
    {
        self.inner.insert((addr.opid.hi, addr.opid.lo, addr.pos), cell).expect("state too large");
    }

    /// `amplify::confinement::Confined::remove`: takes an entry out, if it is there.
    #[verifier::external_body]
    pub(crate) fn remove(&mut self, addr: CellAddr) -> (r: Option<StateCell>)
        ensures
            destroyed_content(*final(self)) == destroyed_content(*old(self)).remove(addr),
            match r {
                Some(cell) => destroyed_content(*old(self)).contains_key(addr) && cell == destroyed_content(*old(self))[addr],
                None => !destroyed_content(*old(self)).contains_key(addr),
            },
    {
        self.inner.remove(&(addr.opid.hi, addr.opid.lo, addr.pos)).expect("zero-sized confinement is allowed")
    }

    /// `std::collections::BTreeMap::iter`, by dereference of the confined map: the entries in the
    /// ascending order of the keys.
    #[verifier::external_body]
    pub(crate) fn entries(&self) -> (r: Vec<(CellAddr, StateCell)>)
        ensures
            lists(r@, destroyed_content(*self)),
    {
        let plain = |key: &(u128, u128, u16)| CellAddr { opid: Opid { hi: key.0, lo: key.1 }, pos: key.2 };
        self.inner.iter().map(|(key, cell)| (plain(key), cell.clone())).collect()
    }
}

} // verus!
