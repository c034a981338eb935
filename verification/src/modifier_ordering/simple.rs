//! # Simple Ordering
use vstd::prelude::*;
use crate::modifier_ordering::{CompleteOrdering, ModifierOrdering, Order};
use crate::netsim::config::{ConfigExpr, ConfigModifier, ExprView, ModView};
use crate::netsim::types::{BgpSessionType, RouterId};

verus! {

/// How two numbers compare.
pub open spec fn order_int(a: int, b: int) -> Order {
    if a < b {
        Order::Less
    } else if a > b {
        Order::Greater
    } else {
        Order::Equal
    }
}

/// The first pair of routers decides, then the second.
pub open spec fn order_two_routers_spec(a1: RouterId, b1: RouterId, a2: RouterId, b2: RouterId) -> Order {
    if a1 != b1 {
        order_int(a1 as int, b1 as int)
    } else {
        order_int(a2 as int, b2 as int)
    }
}

/// Static routes come first, then link weights, then BGP sessions, then route maps.
pub open spec fn expr_rank(e: ExprView) -> int {
    match e {
        ExprView::StaticRoute { .. } => 0,
        ExprView::IgpLinkWeight { .. } => 1,
        ExprView::BgpSession { .. } => 2,
        ExprView::BgpRouteMap { .. } => 3,
    }
}

/// eBGP sessions come first, then sessions to route-reflector clients, then those to peers.
pub open spec fn session_rank(x: BgpSessionType) -> int {
    match x {
        BgpSessionType::EBgp => 0,
        BgpSessionType::IBgpClient => 1,
        BgpSessionType::IBgpPeer => 2,
    }
}

/// The order of two expressions: by their kind; static routes by their prefix, then by their
/// routers; link weights by the weight, then by their routers (where the weights are equal or
/// one is NaN); sessions by their type, then by their routers; route maps by their router, then
/// by their order.
pub open spec fn order_expr_spec(a: ExprView, b: ExprView) -> Order {
    if expr_rank(a) != expr_rank(b) {
        order_int(expr_rank(a), expr_rank(b))
    } else {
        match (a, b) {
            (
                ExprView::StaticRoute { router: ra, prefix: pa, target: ta },
                ExprView::StaticRoute { router: rb, prefix: pb, target: tb },
            ) => if pa.0 != pb.0 {
                order_int(pa.0 as int, pb.0 as int)
            } else {
                order_two_routers_spec(ra, rb, ta, tb)
            },
            (
                ExprView::IgpLinkWeight { source: sa, target: ta, weight: wa },
                ExprView::IgpLinkWeight { source: sb, target: tb, weight: wb },
            ) => match wa.compare_spec(wb) {
                Some(Order::Less) => Order::Less,
                Some(Order::Greater) => Order::Greater,
                _ => order_two_routers_spec(sa, sb, ta, tb),
            },
            (
                ExprView::BgpSession { source: sa, target: ta, session_type: xa },
                ExprView::BgpSession { source: sb, target: tb, session_type: xb },
            ) => if xa != xb {
                order_int(session_rank(xa), session_rank(xb))
            } else {
                order_two_routers_spec(sa, sb, ta, tb)
            },
            (ExprView::BgpRouteMap { router: ra, map: ma, .. }, ExprView::BgpRouteMap { router: rb, map: mb, .. }) => if ra
                != rb {
                order_int(ra as int, rb as int)
            } else {
                order_int(ma.0 as int, mb.0 as int)
            },
            _ => Order::Equal,
        }
    }
}

/// Insertions come first, then updates, then removals.
pub open spec fn modifier_rank(m: ModView) -> int {
    match m {
        ModView::Insert(_) => 0,
        ModView::Update { .. } => 1,
        ModView::Remove(_) => 2,
    }
}

/// The expression that orders a modifier: the new one of an update.
pub open spec fn ordered_expr(m: ModView) -> ExprView {
    match m {
        ModView::Insert(e) => e,
        ModView::Update { to, .. } => to,
        ModView::Remove(e) => e,
    }
}

/// The order of two modifiers: by their kind, then by their expressions.
pub open spec fn simple_order(a: ModView, b: ModView) -> Order {
    if modifier_rank(a) != modifier_rank(b) {
        order_int(modifier_rank(a), modifier_rank(b))
    } else {
        order_expr_spec(ordered_expr(a), ordered_expr(b))
    }
}

/// #Simple Ordering
/// The following ordering is used:
/// - Modification type: Insert < Update < Remove
/// - Expression type: StaticRoute < IgpLinkWeight < BgpSession < BgpRouteMap
/// - Values of each expression.
pub struct SimpleOrdering {}

impl ModifierOrdering<ConfigModifier> for SimpleOrdering {
    open spec fn sorts_stably() -> bool {
        true
    }

    open spec fn obeys_order() -> bool {
        true
    }

    open spec fn order_spec(a: ConfigModifier, b: ConfigModifier) -> Order {
        simple_order(a@, b@)
    }

    fn order(a: &ConfigModifier, b: &ConfigModifier) -> (r: Order)
        ensures
            r == simple_order(a@, b@),
    {
        match (a, b) {
            (ConfigModifier::Insert(ea), ConfigModifier::Insert(eb)) => order_expr(ea, eb),
            (ConfigModifier::Insert(_), ConfigModifier::Update { .. }) => Order::Less,
            (ConfigModifier::Insert(_), ConfigModifier::Remove(_)) => Order::Less,
            (ConfigModifier::Update { .. }, ConfigModifier::Insert(_)) => Order::Greater,
            (ConfigModifier::Update { to: ea, .. }, ConfigModifier::Update { to: eb, .. }) => order_expr(ea, eb),
            (ConfigModifier::Update { .. }, ConfigModifier::Remove(_)) => Order::Less,
            (ConfigModifier::Remove(_), ConfigModifier::Insert(_)) => Order::Greater,
            (ConfigModifier::Remove(_), ConfigModifier::Update { .. }) => Order::Greater,
            (ConfigModifier::Remove(ea), ConfigModifier::Remove(eb)) => order_expr(ea, eb),
        }
    }
}

impl CompleteOrdering for SimpleOrdering {}

/// How two numbers compare.
fn order_u32(a: u32, b: u32) -> (r: Order)
    ensures
        r == order_int(a as int, b as int),
{
    if a < b {
        Order::Less
    } else if a > b {
        Order::Greater
    } else {
        Order::Equal
    }
}

/// Order two configuration expressions.
fn order_expr(a: &ConfigExpr, b: &ConfigExpr) -> (r: Order)
    ensures
        r == order_expr_spec(a@, b@),
{
    match (a, b) {
        (
            ConfigExpr::StaticRoute { router: ra, prefix: pa, target: ta },
            ConfigExpr::StaticRoute { router: rb, prefix: pb, target: tb },
        ) => match order_u32(pa.0, pb.0) {
            Order::Equal => order_two_routers(ra, rb, ta, tb),
            o => o,
        },
        (ConfigExpr::StaticRoute { .. }, ConfigExpr::IgpLinkWeight { .. }) => Order::Less,
        (ConfigExpr::StaticRoute { .. }, ConfigExpr::BgpSession { .. }) => Order::Less,
        (ConfigExpr::StaticRoute { .. }, ConfigExpr::BgpRouteMap { .. }) => Order::Less,
        (ConfigExpr::IgpLinkWeight { .. }, ConfigExpr::StaticRoute { .. }) => Order::Greater,
        (
            ConfigExpr::IgpLinkWeight { source: sa, target: ta, weight: wa },
            ConfigExpr::IgpLinkWeight { source: sb, target: tb, weight: wb },
        ) => match wa.compare(wb) {
            Some(Order::Equal) | None => order_two_routers(sa, sb, ta, tb),
            Some(o) => o,
        },
        (ConfigExpr::IgpLinkWeight { .. }, ConfigExpr::BgpSession { .. }) => Order::Less,
        (ConfigExpr::IgpLinkWeight { .. }, ConfigExpr::BgpRouteMap { .. }) => Order::Less,
        (ConfigExpr::BgpSession { .. }, ConfigExpr::StaticRoute { .. }) => Order::Greater,
        (ConfigExpr::BgpSession { .. }, ConfigExpr::IgpLinkWeight { .. }) => Order::Greater,
        (
            ConfigExpr::BgpSession { source: sa, target: ta, session_type: xa },
            ConfigExpr::BgpSession { source: sb, target: tb, session_type: xb },
        ) => match (xa, xb) {
            (BgpSessionType::EBgp, BgpSessionType::EBgp) => order_two_routers(sa, sb, ta, tb),
            (BgpSessionType::EBgp, BgpSessionType::IBgpClient) => Order::Less,
            (BgpSessionType::EBgp, BgpSessionType::IBgpPeer) => Order::Less,
            (BgpSessionType::IBgpClient, BgpSessionType::EBgp) => Order::Greater,
            (BgpSessionType::IBgpClient, BgpSessionType::IBgpClient) => order_two_routers(sa, sb, ta, tb),
            (BgpSessionType::IBgpClient, BgpSessionType::IBgpPeer) => Order::Less,
            (BgpSessionType::IBgpPeer, BgpSessionType::EBgp) => Order::Greater,
            (BgpSessionType::IBgpPeer, BgpSessionType::IBgpClient) => Order::Greater,
            (BgpSessionType::IBgpPeer, BgpSessionType::IBgpPeer) => order_two_routers(sa, sb, ta, tb),
        },
        (ConfigExpr::BgpSession { .. }, ConfigExpr::BgpRouteMap { .. }) => Order::Less,
        (ConfigExpr::BgpRouteMap { .. }, ConfigExpr::StaticRoute { .. }) => Order::Greater,
        (ConfigExpr::BgpRouteMap { .. }, ConfigExpr::IgpLinkWeight { .. }) => Order::Greater,
        (ConfigExpr::BgpRouteMap { .. }, ConfigExpr::BgpSession { .. }) => Order::Greater,
        (
            ConfigExpr::BgpRouteMap { router: ra, direction: _, map: ma },
            ConfigExpr::BgpRouteMap { router: rb, direction: _, map: mb },
        ) => match order_u32(*ra, *rb) {
            Order::Equal => {
                let oa = ma.order();
                let ob = mb.order();
                if oa < ob {
                    Order::Less
                } else if oa > ob {
                    Order::Greater
                } else {
                    Order::Equal
                }
            },
            o => o,
        },
    }
}

/// The first pair of routers decides, then the second.
fn order_two_routers(a1: &RouterId, b1: &RouterId, a2: &RouterId, b2: &RouterId) -> (r: Order)
    ensures
        r == order_two_routers_spec(*a1, *b1, *a2, *b2),
{
    if a1 < b1 {
        Order::Less
    } else if a1 > b1 {
        Order::Greater
    } else if a2 < b2 {
        Order::Less
    } else if a2 > b2 {
        Order::Greater
    } else {
        Order::Equal
    }
}

} // verus!
