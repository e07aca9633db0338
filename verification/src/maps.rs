//! The id-keyed maps of a board. Each map is a struct around a
//! `hashbrown::HashMap` whose contents are given a name, with one wrapper per
//! map operation the board uses.

use crate::board::{device_copied, Device, DeviceView, Group, GroupView, Input, InputView, IoView, Output};
use vstd::prelude::*;

verus! {

/// The input pins of a board, keyed by id.
#[verifier::external_body]
pub struct InputMap {
    inner: hashbrown::HashMap<u64, Input>,
}

/// What `InputMap` holds: each id with the value stored under it.
pub uninterp spec fn input_entries(m: InputMap) -> Map<u64, InputView>;

impl InputMap {
    /// Calls `hashbrown::HashMap::new`: an empty map.
    #[verifier::external_body]
    pub(crate) fn new() -> (r: InputMap)
        ensures
            input_entries(r).dom().is_empty(),
    {
        InputMap { inner: hashbrown::HashMap::new() }
    }

    /// Calls `hashbrown::HashMap::len`: the number of entries.
    #[verifier::external_body]
    pub(crate) fn len(&self) -> (r: usize)
        ensures
            r == input_entries(*self).dom().len(),
    {
        self.inner.len()
    }

    /// Calls `hashbrown::HashMap::get`: the value under `k`, if any.
    #[verifier::external_body]
    pub(crate) fn get(&self, k: u64) -> (r: Option<&Input>)
        ensures
            r is Some <==> input_entries(*self).contains_key(k),
            r matches Some(v) ==> v@ == input_entries(*self)[k],
    {
        self.inner.get(&k)
    }

    /// Calls `hashbrown::HashMap::get_mut`: the value under `k`, if any, to
    /// change in place.
    #[verifier::external_body]
    pub(crate) fn get_mut<'a>(&'a mut self, k: u64) -> (r: Option<&'a mut Input>)
        ensures
            r is Some <==> input_entries(*old(self)).contains_key(k),
            r matches Some(v) ==> (*v)@ == input_entries(*old(self))[k] && input_entries(*final(self))
                == input_entries(*old(self)).insert(k, (*final(v))@),
            r is None ==> input_entries(*final(self)) == input_entries(*old(self)),
    {
        self.inner.get_mut(&k)
    }

    /// Calls `hashbrown::HashMap::insert`: stores `v` under `k`, handing back
    /// the value it replaces.
    #[verifier::external_body]
    pub(crate) fn insert(&mut self, k: u64, v: Input) -> (r: Option<Input>)
        ensures
            input_entries(*final(self)) == input_entries(*old(self)).insert(k, v@),
            r is Some <==> input_entries(*old(self)).contains_key(k),
            r matches Some(x) ==> x@ == input_entries(*old(self))[k],
    {
        self.inner.insert(k, v)
    }

    /// Calls `hashbrown::HashMap::remove`: takes out the value under `k`.
    #[verifier::external_body]
    pub(crate) fn remove(&mut self, k: u64) -> (r: Option<Input>)
        ensures
            input_entries(*final(self)) == input_entries(*old(self)).remove(k),
            r is Some <==> input_entries(*old(self)).contains_key(k),
            r matches Some(x) ==> x@ == input_entries(*old(self))[k],
    {
        self.inner.remove(&k)
    }

    /// Calls `hashbrown::HashMap::keys`: every id once, in the map's own
    /// order, which depends on the map's layout and is not stated.
    #[verifier::external_body]
    pub(crate) fn keys(&self) -> (r: Vec<u64>)
        ensures
            r@.no_duplicates(),
            r@.to_set() == input_entries(*self).dom(),
    {
        self.inner.keys().cloned().collect()
    }

    /// Calls `hashbrown::HashMap::clone`, which clones every value; the
    /// values' `clone` keeps their view.
    #[verifier::external_body]
    pub(crate) fn duplicate(&self) -> (r: InputMap)
        ensures
            input_entries(r) == input_entries(*self),
    {
        InputMap { inner: self.inner.clone() }
    }
}

/// The output pins of a board, keyed by id.
#[verifier::external_body]
pub struct OutputMap {
    inner: hashbrown::HashMap<u64, Output>,
}

/// What `OutputMap` holds: each id with the value stored under it.
pub uninterp spec fn output_entries(m: OutputMap) -> Map<u64, IoView>;

impl OutputMap {
    /// Calls `hashbrown::HashMap::new`: an empty map.
    #[verifier::external_body]
    pub(crate) fn new() -> (r: OutputMap)
        ensures
            output_entries(r).dom().is_empty(),
    {
        OutputMap { inner: hashbrown::HashMap::new() }
    }

    /// Calls `hashbrown::HashMap::len`: the number of entries.
    #[verifier::external_body]
    pub(crate) fn len(&self) -> (r: usize)
        ensures
            r == output_entries(*self).dom().len(),
    {
        self.inner.len()
    }

    /// Calls `hashbrown::HashMap::get`: the value under `k`, if any.
    #[verifier::external_body]
    pub(crate) fn get(&self, k: u64) -> (r: Option<&Output>)
        ensures
            r is Some <==> output_entries(*self).contains_key(k),
            r matches Some(v) ==> v@ == output_entries(*self)[k],
    {
        self.inner.get(&k)
    }

    /// Calls `hashbrown::HashMap::get_mut`: the value under `k`, if any, to
    /// change in place.
    #[verifier::external_body]
    pub(crate) fn get_mut<'a>(&'a mut self, k: u64) -> (r: Option<&'a mut Output>)
        ensures
            r is Some <==> output_entries(*old(self)).contains_key(k),
            r matches Some(v) ==> (*v)@ == output_entries(*old(self))[k] && output_entries(*final(self))
                == output_entries(*old(self)).insert(k, (*final(v))@),
            r is None ==> output_entries(*final(self)) == output_entries(*old(self)),
    {
        self.inner.get_mut(&k)
    }

    /// Calls `hashbrown::HashMap::insert`: stores `v` under `k`, handing back
    /// the value it replaces.
    #[verifier::external_body]
    pub(crate) fn insert(&mut self, k: u64, v: Output) -> (r: Option<Output>)
        ensures
            output_entries(*final(self)) == output_entries(*old(self)).insert(k, v@),
            r is Some <==> output_entries(*old(self)).contains_key(k),
            r matches Some(x) ==> x@ == output_entries(*old(self))[k],
    {
        self.inner.insert(k, v)
    }

    /// Calls `hashbrown::HashMap::remove`: takes out the value under `k`.
    #[verifier::external_body]
    pub(crate) fn remove(&mut self, k: u64) -> (r: Option<Output>)
        ensures
            output_entries(*final(self)) == output_entries(*old(self)).remove(k),
            r is Some <==> output_entries(*old(self)).contains_key(k),
            r matches Some(x) ==> x@ == output_entries(*old(self))[k],
    {
        self.inner.remove(&k)
    }

    /// Calls `hashbrown::HashMap::keys`: every id once, in the map's own
    /// order, which depends on the map's layout and is not stated.
    #[verifier::external_body]
    pub(crate) fn keys(&self) -> (r: Vec<u64>)
        ensures
            r@.no_duplicates(),
            r@.to_set() == output_entries(*self).dom(),
    {
        self.inner.keys().cloned().collect()
    }

    /// Calls `hashbrown::HashMap::clone`, which clones every value; the
    /// values' `clone` keeps their view.
    #[verifier::external_body]
    pub(crate) fn duplicate(&self) -> (r: OutputMap)
        ensures
            output_entries(r) == output_entries(*self),
    {
        OutputMap { inner: self.inner.clone() }
    }
}

/// The devices of a board, keyed by id.
#[verifier::external_body]
pub struct DeviceMap {
    inner: hashbrown::HashMap<u64, Device>,
}

/// What `DeviceMap` holds: each id with the value stored under it.
pub uninterp spec fn device_entries(m: DeviceMap) -> Map<u64, DeviceView>;

impl DeviceMap {
    /// Calls `hashbrown::HashMap::new`: an empty map.
    #[verifier::external_body]
    pub(crate) fn new() -> (r: DeviceMap)
        ensures
            device_entries(r).dom().is_empty(),
    {
        DeviceMap { inner: hashbrown::HashMap::new() }
    }

    /// Calls `hashbrown::HashMap::len`: the number of entries.
    #[verifier::external_body]
    pub(crate) fn len(&self) -> (r: usize)
        ensures
            r == device_entries(*self).dom().len(),
    {
        self.inner.len()
    }

    /// Calls `hashbrown::HashMap::get`: the value under `k`, if any.
    #[verifier::external_body]
    pub(crate) fn get(&self, k: u64) -> (r: Option<&Device>)
        ensures
            r is Some <==> device_entries(*self).contains_key(k),
            r matches Some(v) ==> v@ == device_entries(*self)[k],
    {
        self.inner.get(&k)
    }

    /// Calls `hashbrown::HashMap::get_mut`: the value under `k`, if any, to
    /// change in place.
    #[verifier::external_body]
    pub(crate) fn get_mut<'a>(&'a mut self, k: u64) -> (r: Option<&'a mut Device>)
        ensures
            r is Some <==> device_entries(*old(self)).contains_key(k),
            r matches Some(v) ==> (*v)@ == device_entries(*old(self))[k] && device_entries(*final(self))
                == device_entries(*old(self)).insert(k, (*final(v))@),
            r is None ==> device_entries(*final(self)) == device_entries(*old(self)),
    {
        self.inner.get_mut(&k)
    }

    /// Calls `hashbrown::HashMap::insert`: stores `v` under `k`, handing back
    /// the value it replaces.
    #[verifier::external_body]
    pub(crate) fn insert(&mut self, k: u64, v: Device) -> (r: Option<Device>)
        ensures
            device_entries(*final(self)) == device_entries(*old(self)).insert(k, v@),
            r is Some <==> device_entries(*old(self)).contains_key(k),
            r matches Some(x) ==> x@ == device_entries(*old(self))[k],
    {
        self.inner.insert(k, v)
    }

    /// Calls `hashbrown::HashMap::remove`: takes out the value under `k`.
    #[verifier::external_body]
    pub(crate) fn remove(&mut self, k: u64) -> (r: Option<Device>)
        ensures
            device_entries(*final(self)) == device_entries(*old(self)).remove(k),
            r is Some <==> device_entries(*old(self)).contains_key(k),
            r matches Some(x) ==> x@ == device_entries(*old(self))[k],
    {
        self.inner.remove(&k)
    }

    /// Calls `hashbrown::HashMap::keys`: every id once, in the map's own
    /// order, which depends on the map's layout and is not stated.
    #[verifier::external_body]
    pub(crate) fn keys(&self) -> (r: Vec<u64>)
        ensures
            r@.no_duplicates(),
            r@.to_set() == device_entries(*self).dom(),
    {
        self.inner.keys().cloned().collect()
    }

    /// Calls `hashbrown::HashMap::clone`, which clones every value; a
    /// device's `clone` keeps its view but for the buffered writes of a
    /// chip, which it drops.
    #[verifier::external_body]
    pub(crate) fn duplicate(&self) -> (r: DeviceMap)
        ensures
            device_entries(r) == device_entries(*self).map_values(|d: DeviceView| device_copied(d)),
    {
        DeviceMap { inner: self.inner.clone() }
    }
}

/// The pin groups of a board, keyed by id.
#[verifier::external_body]
pub struct GroupMap {
    inner: hashbrown::HashMap<u64, Group>,
}

/// What `GroupMap` holds: each id with the value stored under it.
pub uninterp spec fn group_entries(m: GroupMap) -> Map<u64, GroupView>;

impl GroupMap {
    /// Calls `hashbrown::HashMap::new`: an empty map.
    #[verifier::external_body]
    pub(crate) fn new() -> (r: GroupMap)
        ensures
            group_entries(r).dom().is_empty(),
    {
        GroupMap { inner: hashbrown::HashMap::new() }
    }

    /// Calls `hashbrown::HashMap::get`: the value under `k`, if any.
    #[verifier::external_body]
    pub(crate) fn get(&self, k: u64) -> (r: Option<&Group>)
        ensures
            r is Some <==> group_entries(*self).contains_key(k),
            r matches Some(v) ==> v@ == group_entries(*self)[k],
    {
        self.inner.get(&k)
    }

    /// Calls `hashbrown::HashMap::get_mut`: the value under `k`, if any, to
    /// change in place.
    #[verifier::external_body]
    pub(crate) fn get_mut<'a>(&'a mut self, k: u64) -> (r: Option<&'a mut Group>)
        ensures
            r is Some <==> group_entries(*old(self)).contains_key(k),
            r matches Some(v) ==> (*v)@ == group_entries(*old(self))[k] && group_entries(*final(self))
                == group_entries(*old(self)).insert(k, (*final(v))@),
            r is None ==> group_entries(*final(self)) == group_entries(*old(self)),
    {
        self.inner.get_mut(&k)
    }

    /// Calls `hashbrown::HashMap::insert`: stores `v` under `k`, handing back
    /// the value it replaces.
    #[verifier::external_body]
    pub(crate) fn insert(&mut self, k: u64, v: Group) -> (r: Option<Group>)
        ensures
            group_entries(*final(self)) == group_entries(*old(self)).insert(k, v@),
            r is Some <==> group_entries(*old(self)).contains_key(k),
            r matches Some(x) ==> x@ == group_entries(*old(self))[k],
    {
        self.inner.insert(k, v)
    }

    /// Calls `hashbrown::HashMap::remove`: takes out the value under `k`.
    #[verifier::external_body]
    pub(crate) fn remove(&mut self, k: u64) -> (r: Option<Group>)
        ensures
            group_entries(*final(self)) == group_entries(*old(self)).remove(k),
            r is Some <==> group_entries(*old(self)).contains_key(k),
            r matches Some(x) ==> x@ == group_entries(*old(self))[k],
    {
        self.inner.remove(&k)
    }

    /// Calls `hashbrown::HashMap::keys`: every id once, in the map's own
    /// order, which depends on the map's layout and is not stated.
    #[verifier::external_body]
    pub(crate) fn keys(&self) -> (r: Vec<u64>)
        ensures
            r@.no_duplicates(),
            r@.to_set() == group_entries(*self).dom(),
    {
        self.inner.keys().cloned().collect()
    }

    /// Calls `hashbrown::HashMap::clone`, which clones every value; the
    /// values' `clone` keeps their view.
    #[verifier::external_body]
    pub(crate) fn duplicate(&self) -> (r: GroupMap)
        ensures
            group_entries(r) == group_entries(*self),
    {
        GroupMap { inner: self.inner.clone() }
    }
}

} // verus!
