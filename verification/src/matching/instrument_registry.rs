use std::collections::HashMap;

use vstd::prelude::*;

use crate::domain::{Instrument, InstrumentId};

verus! {

/// Why the registry refused a request.
#[derive(Debug, Clone, Copy, PartialEq, Eq, Structural)]
pub enum InstrumentRegistryError {
    /// An instrument with this id is already registered.
    DuplicateInstrument(InstrumentId),
    /// No instrument with this id is registered.
    NotFound(InstrumentId),
}

/// Registry of instruments known to the matching core.
///
/// Every order submitted to the engine must reference a registered instrument. The
/// registry only tracks which instruments exist and provides a lookup by id.
#[derive(Debug)]
pub struct InstrumentRegistry {
    registry: HashMap<u64, Instrument>,
}

impl View for InstrumentRegistry {
    type V = Map<u64, Instrument>;

    closed spec fn view(&self) -> Map<u64, Instrument> {
        self.registry@
    }
}

impl Default for InstrumentRegistry {
    fn default() -> (r: Self)
        ensures
            r@ == Map::<u64, Instrument>::empty(),
    {
        Self::new()
    }
}

impl InstrumentRegistry {
    /// An empty registry.
    pub fn new() -> (r: Self)
        ensures
            r@ == Map::<u64, Instrument>::empty(),
            r@.dom().finite(),
    {
        InstrumentRegistry { registry: HashMap::new() }
    }

    /// Registers a new instrument, or refuses when its id is already registered.
    pub fn register(&mut self, instrument: Instrument) -> (r: Result<(), InstrumentRegistryError>)
        ensures
            old(self)@.contains_key(instrument.id.0) ==> r == Err::<(), InstrumentRegistryError>(
                InstrumentRegistryError::DuplicateInstrument(instrument.id),
            ) && final(self)@ == old(self)@,
            !old(self)@.contains_key(instrument.id.0) ==> r is Ok && final(self)@ == old(self)@.insert(
                instrument.id.0,
                instrument,
            ),
            !old(self)@.contains_key(instrument.id.0) ==> final(self)@.len() == old(self)@.len() + 1,
            old(self)@.dom().finite(),
            final(self)@.dom().finite(),
    {
        proof {
            vstd::std_specs::hash::axiom_hashmap_view_finite_dom(self.registry);
        }
        let id = instrument.id;
        if self.registry.contains_key(&id.0) {
            return Err(InstrumentRegistryError::DuplicateInstrument(id));
        }
        self.registry.insert(id.0, instrument);
        proof {
            vstd::std_specs::hash::axiom_hashmap_view_finite_dom(self.registry);
        }
        Ok(())
    }

    /// Looks up an instrument by id.
    pub fn get(&self, id: InstrumentId) -> (r: Result<&Instrument, InstrumentRegistryError>)
        ensures
            self@.contains_key(id.0) ==> (r matches Ok(instrument) && *instrument == self@[id.0]),
            !self@.contains_key(id.0) ==> r == Err::<&Instrument, InstrumentRegistryError>(
                InstrumentRegistryError::NotFound(id),
            ),
    {
        match self.registry.get(&id.0) {
            Some(instrument) => Ok(instrument),
            None => Err(InstrumentRegistryError::NotFound(id)),
        }
    }

    /// Whether the instrument is registered.
    pub fn contains(&self, id: InstrumentId) -> (r: bool)
        ensures
            r == self@.contains_key(id.0),
    {
        self.registry.contains_key(&id.0)
    }

    /// The number of registered instruments.
    pub fn len(&self) -> (r: usize)
        ensures
            r == self@.len(),
            self@.dom().finite(),
    {
        proof {
            vstd::std_specs::hash::axiom_hashmap_view_finite_dom(self.registry);
        }
        self.registry.len()
    }

    /// Whether no instrument is registered.
    pub fn is_empty(&self) -> (r: bool)
        ensures
            r == (self@.len() == 0),
    {
        self.registry.is_empty()
    }
}

} // verus!
