//! Basic types of the network model.
use vstd::prelude::*;
use crate::hard_policies::PolicyError;
use crate::modifier_ordering::Order;
use crate::netsim::config::ConfigModifier;
use vstd::std_specs::cmp::PartialEqSpecImpl;

verus! {

/// Router Identification: the index of the router in the network.
pub type RouterId = u32;

/// IP Prefix (simple representation)
#[derive(PartialEq, Eq, Structural, PartialOrd, Ord, Hash, Debug, Clone, Copy)]
pub struct Prefix(pub u32);

/// AS Number
#[derive(PartialEq, Eq, Structural, PartialOrd, Ord, Hash, Debug, Clone, Copy)]
pub struct AsId(pub u32);

/// Type of a BGP session, as seen from the router that configures it.
#[derive(PartialEq, Eq, Structural, Hash, Debug, Clone, Copy)]
pub enum BgpSessionType {
    /// Session between routers of different autonomous systems
    EBgp,
    /// Internal session between two peers
    IBgpPeer,
    /// Internal session towards a route-reflector client
    IBgpClient,
}

/// Link weight of the IGP: a single-precision IEEE-754 number, held by its 32-bit encoding
/// (the sign bit, eight exponent bits and 23 fraction bits). Two weights are equal when the
/// numbers they encode are: `+0` equals `-0`, and a NaN equals nothing, not even itself.
#[derive(Debug, Clone, Copy)]
pub struct LinkWeight {
    /// The encoding of the number
    pub bits: u32,
}

impl LinkWeight {
    /// The weight encodes a NaN: all exponent bits are set and the fraction is not zero.
    pub open spec fn is_nan_spec(self) -> bool {
        (self.bits / 0x80_0000) % 0x100 == 0xff && self.bits % 0x80_0000 != 0
    }

    /// The place of the encoded number among all numbers that are not NaN: the encoding of its
    /// magnitude, negated for a negative number. Both zeros have rank 0.
    pub open spec fn rank(self) -> int {
        let m = (self.bits % 0x8000_0000) as int;
        if self.bits >= 0x8000_0000 {
            -m
        } else {
            m
        }
    }

    /// The two weights encode equal numbers.
    pub open spec fn same_value(self, other: LinkWeight) -> bool {
        !self.is_nan_spec() && !other.is_nan_spec() && self.rank() == other.rank()
    }

    /// How the encoded numbers compare; `None` if one of them is NaN.
    pub open spec fn compare_spec(self, other: LinkWeight) -> Option<Order> {
        if self.is_nan_spec() || other.is_nan_spec() {
            None
        } else if self.rank() < other.rank() {
            Some(Order::Less)
        } else if self.rank() > other.rank() {
            Some(Order::Greater)
        } else {
            Some(Order::Equal)
        }
    }

    /// The weight of a link that carries no traffic: positive infinity.
    pub fn infinite() -> (r: Self)
        ensures
            r.bits == 0x7f80_0000,
    {
        LinkWeight { bits: 0x7f80_0000 }
    }

    /// The weight with the given encoding.
    pub fn from_bits(bits: u32) -> (r: Self)
        ensures
            r.bits == bits,
    {
        LinkWeight { bits }
    }

    /// The encoding of the weight.
    pub fn to_bits(&self) -> (r: u32)
        ensures
            r == self.bits,
    {
        self.bits
    }

    /// Whether the weight is NaN.
    pub fn is_nan(&self) -> (r: bool)
        ensures
            r == self.is_nan_spec(),
    {
        (self.bits / 0x80_0000) % 0x100 == 0xff && self.bits % 0x80_0000 != 0
    }

    /// Compares the encoded numbers; `None` if one of them is NaN.
    pub fn compare(&self, other: &LinkWeight) -> (r: Option<Order>)
        ensures
            r == self.compare_spec(*other),
    {
        if self.is_nan() || other.is_nan() {
            return None;
        }
        let neg_a = self.bits >= 0x8000_0000;
        let neg_b = other.bits >= 0x8000_0000;
        let ma = self.bits % 0x8000_0000;
        let mb = other.bits % 0x8000_0000;
        if !neg_a && !neg_b {
            if ma < mb {
                Some(Order::Less)
            } else if ma > mb {
                Some(Order::Greater)
            } else {
                Some(Order::Equal)
            }
        } else if neg_a && neg_b {
            if ma > mb {
                Some(Order::Less)
            } else if ma < mb {
                Some(Order::Greater)
            } else {
                Some(Order::Equal)
            }
        } else if ma == 0 && mb == 0 {
            Some(Order::Equal)
        } else if neg_a {
            Some(Order::Less)
        } else {
            Some(Order::Greater)
        }
    }

    /// Whether the two weights encode equal numbers.
    pub fn same(&self, other: &LinkWeight) -> (r: bool)
        ensures
            r == self.same_value(*other),
    {
        self.compare(other) == Some(Order::Equal)
    }
}

impl PartialEq for LinkWeight {
    fn eq(&self, other: &Self) -> (r: bool) {
        self.same(other)
    }
}

impl PartialEqSpecImpl for LinkWeight {
    open spec fn obeys_eq_spec() -> bool {
        true
    }

    open spec fn eq_spec(&self, other: &LinkWeight) -> bool {
        self.same_value(*other)
    }
}

/// Configuration Errors
#[derive(Debug, PartialEq)]
pub enum ConfigError {
    /// The added expression would overwrite an existing expression
    ConfigExprOverload,
    /// The ConfigModifier cannot be applied. There are three cases why this is the case:
    /// 1. The ConfigModifier::Insert would insert an already existing expression
    /// 2. The ConfigModifier::Remove would remove an non-existing expression
    /// 3. The ConfigModifier::Update would update an non-existing expression
    ConfigModifierError(ConfigModifier),
}

/// Router Errors
#[derive(Debug, PartialEq)]
pub enum DeviceError {
    /// BGP session is already established
    SessionAlreadyExists(RouterId),
    /// No BGP session is established
    NoBgpSession(RouterId),
    /// Router was not found in the IGP forwarding table
    RouterNotFound(RouterId),
    /// Router is marked as not reachable in the IGP forwarding table.
    RouterNotReachable(RouterId),
    /// Static Route already exists
    StaticRouteAlreadyExists(Prefix),
    /// Static Route doesn't exists
    NoStaticRoute(Prefix),
    /// Bgp Route Map with the same order already exists
    BgpRouteMapAlreadyExists(usize),
    /// Bgp Route Map with the chosen order does not exist
    NoBgpRouteMap(usize),
    /// The undo stack of a router is empty
    UndoStackEmpty,
    /// Cannot undo the action, data seems to have changed!
    UndoStackError(&'static str),
}

/// Network Errors: those that carry plain values.
#[derive(Debug, PartialEq)]
pub enum NetworkError {
    /// Device Error which cannot be handled
    DeviceError(DeviceError),
    /// Configuration error
    ConfigError(ConfigError),
    /// Device is not present in the topology
    DeviceNotFound(RouterId),
    /// Device name is not present in the topology
    DeviceNameNotFound(String),
    /// Device must be an internal router, but an external router was passed
    DeviceIsExternalRouter(RouterId),
    /// Forwarding loop detected: the path up to the second visit of the router that repeats
    ForwardingLoop(Vec<RouterId>),
    /// Black hole detected: the path up to the router that has no route
    ForwardingBlackHole(Vec<RouterId>),
    /// Invalid BGP session type
    InvalidBgpSessionType(RouterId, RouterId, BgpSessionType),
    /// Convergence Problem
    NoConvergence,
    /// Two routers are not adjacent
    RoutersNotConnected(RouterId, RouterId),
    /// The BGP table is invalid
    InvalidBgpTable(RouterId),
    /// Error encountered while finding convergence loop. Enqueued event does not match the
    /// expectation.
    UnexpectedEventConvergenceLoop,
    /// History is invalid
    HistoryError(&'static str),
    /// Constraints are not satisfied during convergence
    UnsatisfiedConstraints(PolicyError),
    /// No events to reorder
    NoEventsToReorder,
}

} // verus!
