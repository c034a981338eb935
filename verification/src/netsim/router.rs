//! # BGP dissemination of a router
//!
//! The BGP tables of an internal router, and how it sends the route it selected for a prefix to
//! each of its peers.
use vstd::prelude::*;
use crate::netsim::bgp::{BgpEvent, BgpRibEntry, EntryView, EventView, RouteView};
use crate::netsim::route_map::{apply_route_maps, maps_outcome, RouteMap};
use crate::netsim::{BgpSessionType, DeviceError, Prefix, RouterId};

verus! {

/// An event of the simulation: a BGP message from a router to a peer.
#[derive(Debug)]
pub enum Event {
    /// BGP message from the first router to the second
    Bgp(RouterId, RouterId, BgpEvent),
}

impl View for Event {
    type V = (RouterId, RouterId, EventView);

    open spec fn view(&self) -> (RouterId, RouterId, EventView) {
        match self {
            Event::Bgp(a, b, e) => (*a, *b, e@),
        }
    }
}

/// How a change of an outgoing RIB is undone.
#[derive(Debug)]
pub enum UndoAction {
    /// Undo by updating (or inserting) a BGP RIB entry in the BGP RIB OUT table
    UpdateBgpRibOut(Prefix, RouterId, BgpRibEntry),
    /// Undo by removing an entry from the BGP RIB OUT table
    RemoveBgpRibOut(Prefix, RouterId),
}

/// How a change of an outgoing RIB is undone, as a plain value.
pub enum UndoView {
    /// Undo by updating (or inserting) a BGP RIB entry in the BGP RIB OUT table
    UpdateBgpRibOut(Prefix, RouterId, EntryView),
    /// Undo by removing an entry from the BGP RIB OUT table
    RemoveBgpRibOut(Prefix, RouterId),
}

impl View for UndoAction {
    type V = UndoView;

    open spec fn view(&self) -> UndoView {
        match self {
            UndoAction::UpdateBgpRibOut(p, r, e) => UndoView::UpdateBgpRibOut(*p, *r, e@),
            UndoAction::RemoveBgpRibOut(p, r) => UndoView::RemoveBgpRibOut(*p, *r),
        }
    }
}

/// The BGP tables of a router for one prefix: the selected route, and the route sent to each
/// peer (one place per BGP session, in the order of the sessions).
#[derive(Debug)]
pub struct PrefixTable {
    /// The prefix
    pub prefix: Prefix,
    /// The selected route
    pub rib: Option<BgpRibEntry>,
    /// The route sent to each peer
    pub rib_out: Vec<Option<BgpRibEntry>>,
}

/// The view of an optional entry.
pub open spec fn opt_view(o: Option<BgpRibEntry>) -> Option<EntryView> {
    match o {
        Some(e) => Some(e@),
        None => None,
    }
}

/// The tables of a prefix, as plain values.
pub struct TableView {
    /// The prefix
    pub prefix: Prefix,
    /// The selected route
    pub rib: Option<EntryView>,
    /// The route sent to each peer
    pub rib_out: Seq<Option<EntryView>>,
}

impl View for PrefixTable {
    type V = TableView;

    open spec fn view(&self) -> TableView {
        TableView { prefix: self.prefix, rib: opt_view(self.rib), rib_out: self.rib_out@.map_values(|o: Option<BgpRibEntry>| opt_view(o)) }
    }
}

/// The state that the dissemination builds, peer after peer: the routes sent to the peers, the
/// undo actions and the events added, and the error that stopped it.
pub type Dissemination = (Seq<Option<EntryView>>, Seq<UndoView>, Seq<(RouterId, RouterId, EventView)>, Option<DeviceError>);

/// The session type that the router has with `peer`, where it has a session with it.
pub open spec fn session_with(sessions: Seq<(RouterId, BgpSessionType)>, peer: RouterId) -> Option<BgpSessionType>
    decreases sessions.len(),
{
    if sessions.len() == 0 {
        None
    } else if sessions[0].0 == peer {
        Some(sessions[0].1)
    } else {
        session_with(sessions.drop_first(), peer)
    }
}

/// Whether a route learned from `from` is exported to `to`, of session type `to_type`: never
/// back to where it came from; otherwise where it came from an external peer or a client, or
/// goes to an external peer or a client. `None` where there is no session with `from`.
pub open spec fn export_decision(
    sessions: Seq<(RouterId, BgpSessionType)>,
    from: RouterId,
    to: RouterId,
    to_type: BgpSessionType,
) -> Option<bool> {
    if from == to {
        Some(false)
    } else {
        match session_with(sessions, from) {
            None => None,
            Some(from_type) => Some(
                from_type == BgpSessionType::EBgp || from_type == BgpSessionType::IBgpClient || to_type
                    == BgpSessionType::EBgp || to_type == BgpSessionType::IBgpClient,
            ),
        }
    }
}

/// The export rules of BGP: a route is never sent back to the peer it came from; a route learned
/// from an external peer or from a route-reflector client goes to every other peer; a route goes
/// to every external peer and every client; only a route learned from a plain iBGP peer is kept
/// from the other plain iBGP peers. Where the router has no session with the sender there is no
/// decision.
pub proof fn lemma_export_rules(sessions: Seq<(RouterId, BgpSessionType)>, from: RouterId, to: RouterId, to_type: BgpSessionType)
    ensures
        from == to ==> export_decision(sessions, from, to, to_type) == Some(false),
        from != to && session_with(sessions, from) is None ==> export_decision(sessions, from, to, to_type) is None,
        from != to && (session_with(sessions, from) == Some(BgpSessionType::IBgpClient) || session_with(sessions, from)
            == Some(BgpSessionType::EBgp)) ==> export_decision(sessions, from, to, to_type) == Some(true),
        from != to && session_with(sessions, from) is Some && (to_type == BgpSessionType::IBgpClient || to_type
            == BgpSessionType::EBgp) ==> export_decision(sessions, from, to, to_type) == Some(true),
        from != to && session_with(sessions, from) == Some(BgpSessionType::IBgpPeer) && to_type == BgpSessionType::IBgpPeer
            ==> export_decision(sessions, from, to, to_type) == Some(false),
{
}

/// What a router sends to a peer: the entry, addressed to the peer, goes through the outgoing
/// route maps; a map that denies it means nothing is sent; otherwise the entry carries the
/// session type of the peer, and towards an external peer the router itself becomes the next
/// hop and the local preference is removed, while towards an internal peer the route is left as
/// the maps made it. The prefix and the AS path are never changed here.
pub proof fn lemma_exported_entry(e: EntryView, peer: RouterId, peer_type: BgpSessionType, maps: Seq<RouteMap>, router_id: RouterId)
    ensures
        ({
            let m = maps_outcome(maps, EntryView { to_id: Some(peer), ..e }).1;
            let x = exported_entry(e, peer, peer_type, maps, router_id);
            &&& m is None <==> x is None
            &&& m matches Some(e2) ==> {
                let y = x->Some_0;
                &&& y.from_type == peer_type
                &&& y.from_id == e2.from_id
                &&& y.to_id == e2.to_id
                &&& y.igp_cost == e2.igp_cost
                &&& y.route.prefix == e2.route.prefix
                &&& y.route.as_path == e2.route.as_path
                &&& y.route.med == e2.route.med
                &&& y.route.community == e2.route.community
                &&& peer_type == BgpSessionType::EBgp ==> y.route.next_hop == router_id && y.route.local_pref is None
                &&& peer_type != BgpSessionType::EBgp ==> y.route == e2.route
            }
        }),
{
}

/// What the dissemination leaves for each of the first `k` peers, where it stops on no error:
/// where nothing is to be sent to the peer, nothing is held for it; where the entry is to be
/// sent and is exported, an entry with that route is held for it; where it is not exported,
/// nothing is held for it, unless the entry held before already had that route and stays. The
/// entries of the other peers are untouched. A stop on an error names a sender with which the
/// router has no session.
pub proof fn lemma_dissemination_result(
    router_id: RouterId,
    sessions: Seq<(RouterId, BgpSessionType)>,
    maps: Seq<RouteMap>,
    prefix: Prefix,
    rib: Option<EntryView>,
    outs: Seq<Option<EntryView>>,
    k: int,
)
    requires
        0 <= k <= sessions.len(),
        outs.len() == sessions.len(),
    ensures
        ({
            let d = dissemination(router_id, sessions, maps, prefix, rib, outs, k);
            &&& d.0.len() == outs.len()
            &&& forall|i: int| k <= i < outs.len() ==> #[trigger] d.0[i] == outs[i]
            &&& d.3 matches Some(err) ==> exists|from: RouterId|
                err == DeviceError::NoBgpSession(from) && #[trigger] session_with(sessions, from) is None
            &&& d.3 is None ==> forall|i: int|
                0 <= i < k ==> {
                    let best = match rib {
                        Some(e) => exported_entry(e, sessions[i].0, sessions[i].1, maps, router_id),
                        None => None,
                    };
                    &&& best is None ==> #[trigger] d.0[i] is None
                    &&& (best is Some && export_decision(sessions, best->Some_0.from_id, sessions[i].0, sessions[i].1)
                        == Some(true)) ==> (d.0[i] is Some && d.0[i]->Some_0.route == best->Some_0.route)
                    &&& (best is Some && export_decision(sessions, best->Some_0.from_id, sessions[i].0, sessions[i].1)
                        == Some(false)) ==> (d.0[i] is None || (outs[i] is Some && outs[i]->Some_0.route
                        == best->Some_0.route && d.0[i] == outs[i]))
                }
        }),
    decreases k,
{
    if k > 0 {
        lemma_dissemination_result(router_id, sessions, maps, prefix, rib, outs, k - 1);
    }
}

/// The entry that the router sends to `peer` for its selected entry `e`: addressed to the peer,
/// through the outgoing route maps (`None` where one denies it), with the session type of the
/// peer; towards an external peer, the router becomes the next hop and the local preference is
/// removed.
pub open spec fn exported_entry(
    e: EntryView,
    peer: RouterId,
    peer_type: BgpSessionType,
    maps: Seq<RouteMap>,
    router_id: RouterId,
) -> Option<EntryView> {
    match maps_outcome(maps, EntryView { to_id: Some(peer), ..e }).1 {
        None => None,
        Some(e2) => {
            let e3 = EntryView { from_type: peer_type, ..e2 };
            if peer_type == BgpSessionType::EBgp {
                Some(EntryView { route: RouteView { next_hop: router_id, local_pref: None, ..e3.route }, ..e3 })
            } else {
                Some(e3)
            }
        },
    }
}

/// The dissemination of the selected entry `rib` for `prefix` to the first `k` peers, starting
/// from the routes `outs` sent to them. For each peer in turn: where the route to send equals
/// the one sent, nothing changes; where a new route is to be sent, it is sent (an update, with
/// an undo action) if it is exported, and otherwise the route sent before is withdrawn; where no
/// route is to be sent any more, the route sent before is withdrawn. A missing session with the
/// peer a route was learned from stops the dissemination.
pub open spec fn dissemination(
    router_id: RouterId,
    sessions: Seq<(RouterId, BgpSessionType)>,
    maps: Seq<RouteMap>,
    prefix: Prefix,
    rib: Option<EntryView>,
    outs: Seq<Option<EntryView>>,
    k: int,
) -> Dissemination
    decreases k,
{
    if k <= 0 {
        (outs, Seq::empty(), Seq::empty(), None)
    } else {
        let prev = dissemination(router_id, sessions, maps, prefix, rib, outs, k - 1);
        if prev.3 is Some {
            prev
        } else {
            let (o, u, ev, _) = prev;
            let i = k - 1;
            let (peer, peer_type) = sessions[i];
            let best = match rib {
                Some(e) => exported_entry(e, peer, peer_type, maps, router_id),
                None => None,
            };
            match (best, o[i]) {
                (Some(b), Some(c)) => if b.route == c.route {
                    prev
                } else {
                    match export_decision(sessions, b.from_id, peer, peer_type) {
                        None => (o, u, ev, Some(DeviceError::NoBgpSession(b.from_id))),
                        Some(true) => (
                            o.update(i, Some(b)),
                            u.push(UndoView::UpdateBgpRibOut(prefix, peer, c)),
                            ev.push((router_id, peer, EventView::Update(b.route))),
                            None,
                        ),
                        Some(false) => (
                            o.update(i, None),
                            u.push(UndoView::UpdateBgpRibOut(prefix, peer, c)),
                            ev.push((router_id, peer, EventView::Withdraw(prefix))),
                            None,
                        ),
                    }
                },
                (Some(b), None) => match export_decision(sessions, b.from_id, peer, peer_type) {
                    None => (o, u, ev, Some(DeviceError::NoBgpSession(b.from_id))),
                    Some(true) => (
                        o.update(i, Some(b)),
                        u.push(UndoView::RemoveBgpRibOut(prefix, peer)),
                        ev.push((router_id, peer, EventView::Update(b.route))),
                        None,
                    ),
                    Some(false) => prev,
                },
                (None, Some(c)) => (
                    o.update(i, None),
                    u.push(UndoView::UpdateBgpRibOut(prefix, peer, c)),
                    ev.push((router_id, peer, EventView::Withdraw(prefix))),
                    None,
                ),
                (None, None) => prev,
            }
        }
    }
}

/// The position of the tables of `prefix`, where the router has them.
pub open spec fn table_of(tables: Seq<TableView>, prefix: Prefix) -> Option<int>
    decreases tables.len(),
{
    if tables.len() == 0 {
        None
    } else if tables.last().prefix == prefix {
        Some(tables.len() - 1)
    } else {
        table_of(tables.drop_last(), prefix)
    }
}

/// An internal router: its BGP sessions, its tables per prefix, its outgoing route maps (in the
/// order in which they are checked), and its stack of undo actions.
#[derive(Debug)]
pub struct Router {
    router_id: RouterId,
    bgp_sessions: Vec<(RouterId, BgpSessionType)>,
    tables: Vec<PrefixTable>,
    bgp_route_maps_out: Vec<RouteMap>,
    undo_stack: Vec<Vec<UndoAction>>,
}

impl Router {
    /// The ID of the router.
    pub closed spec fn id(&self) -> RouterId {
        self.router_id
    }

    /// The BGP sessions: the peer and the session type.
    pub closed spec fn sessions(&self) -> Seq<(RouterId, BgpSessionType)> {
        self.bgp_sessions@
    }

    /// The tables per prefix.
    pub closed spec fn tables_view(&self) -> Seq<TableView> {
        self.tables@.map_values(|t: PrefixTable| t@)
    }

    /// The outgoing route maps.
    pub closed spec fn maps_out(&self) -> Seq<RouteMap> {
        self.bgp_route_maps_out@
    }

    /// The stack of undo actions.
    pub closed spec fn undo_view(&self) -> Seq<Seq<UndoView>> {
        self.undo_stack@.map_values(|v: Vec<UndoAction>| v@.map_values(|a: UndoAction| a@))
    }

    /// The tables per prefix.
    pub fn get_tables(&self) -> (r: &Vec<PrefixTable>)
        ensures
            r@.map_values(|t: PrefixTable| t@) == self.tables_view(),
    {
        &self.tables
    }

    /// The number of undo actions in the last frame of the undo stack.
    pub fn undo_frame_len(&self) -> (r: usize)
        ensures
            self.undo_view().len() == 0 ==> r == 0,
            self.undo_view().len() > 0 ==> r == self.undo_view().last().len(),
    {
        if self.undo_stack.len() == 0 {
            0
        } else {
            self.undo_stack[self.undo_stack.len() - 1].len()
        }
    }

    /// Each table has one place per session.
    pub closed spec fn wf(&self) -> bool {
        forall|i: int| 0 <= i < self.tables@.len() ==> (#[trigger] self.tables@[i]).rib_out@.len() == self.bgp_sessions@.len()
    }

    /// A router with its sessions and outgoing route maps, no routes, and one empty frame of undo
    /// actions.
    pub fn new(router_id: RouterId, bgp_sessions: Vec<(RouterId, BgpSessionType)>, maps_out: Vec<RouteMap>) -> (r: Self)
        ensures
            r.wf(),
            r.id() == router_id,
            r.sessions() == bgp_sessions@,
            r.tables_view().len() == 0,
            r.maps_out() == maps_out@,
            r.undo_view() == seq![Seq::<UndoView>::empty()],
    {
        let mut undo_stack: Vec<Vec<UndoAction>> = Vec::new();
        undo_stack.push(Vec::new());
        let r = Router { router_id, bgp_sessions, tables: Vec::new(), bgp_route_maps_out: maps_out, undo_stack };
        assert(r.undo_stack@[0]@.map_values(|a: UndoAction| a@) =~= Seq::<UndoView>::empty());
        assert(r.undo_view() =~= seq![Seq::<UndoView>::empty()]);
        assert(r.tables_view() =~= Seq::<TableView>::empty());
        r
    }

    /// Sets the selected route for `prefix`, creating its tables where needed.
    pub fn set_rib(&mut self, prefix: Prefix, entry: Option<BgpRibEntry>)
        requires
            old(self).wf(),
        ensures
            final(self).wf(),
            final(self).id() == old(self).id(),
            final(self).sessions() == old(self).sessions(),
            final(self).maps_out() == old(self).maps_out(),
            final(self).undo_view() == old(self).undo_view(),
            table_of(final(self).tables_view(), prefix) matches Some(t) && final(self).tables_view()[t].rib == opt_view(
                entry,
            ),
    {
        let t = self.table_index(prefix);
        let ghost tv = self.tables_view();
        let mut table = self.tables.remove(t);
        table.rib = entry;
        self.tables.insert(t, table);
        proof {
            assert(self.tables_view() =~= tv.update(t as int, self.tables@[t as int]@));
            lemma_table_of_update(tv, prefix, t as int, self.tables@[t as int]@);
        }
    }

    /// The position of the tables of `prefix`; they are created, with no routes, where the router
    /// has none yet.
    #[verifier::loop_isolation(false)]
    fn table_index(&mut self, prefix: Prefix) -> (t: usize)
        requires
            old(self).wf(),
        ensures
            final(self).wf(),
            final(self).router_id == old(self).router_id,
            final(self).bgp_sessions == old(self).bgp_sessions,
            final(self).bgp_route_maps_out == old(self).bgp_route_maps_out,
            final(self).undo_stack == old(self).undo_stack,
            t < final(self).tables@.len(),
            table_of(final(self).tables_view(), prefix) == Some(t as int),
            final(self).tables@[t as int].prefix == prefix,
            table_of(old(self).tables_view(), prefix) matches Some(j) ==> j == t && final(self).tables_view() == old(
                self,
            ).tables_view(),
            table_of(old(self).tables_view(), prefix) is None ==> final(self).tables_view() == old(self).tables_view().push(
                TableView {
                    prefix: prefix,
                    rib: None,
                    rib_out: Seq::new(old(self).bgp_sessions@.len(), |k: int| None),
                },
            ),
    {
        let ghost tv = self.tables_view();
        let mut i = self.tables.len();
        proof {
            assert(tv.take(i as int) =~= tv);
        }
        while i > 0
            invariant
                i <= self.tables@.len(),
                tv == self.tables_view(),
                table_of(tv, prefix) == table_of(tv.take(i as int), prefix),
            decreases i,
        {
            proof {
                assert(tv.take(i as int).drop_last() =~= tv.take(i - 1));
                assert(tv.take(i as int).last() == self.tables@[i - 1]@);
            }
            if self.tables[i - 1].prefix == prefix {
                return i - 1;
            }
            i -= 1;
        }
        proof {
            assert(tv.take(0) =~= Seq::<TableView>::empty());
        }
        let mut outs: Vec<Option<BgpRibEntry>> = Vec::new();
        let mut k: usize = 0;
        while k < self.bgp_sessions.len()
            invariant
                k <= self.bgp_sessions@.len(),
                outs@.len() == k,
                forall|j: int| 0 <= j < k ==> outs@[j] is None,
            decreases self.bgp_sessions@.len() - k,
        {
            outs.push(None);
            k += 1;
        }
        self.tables.push(PrefixTable { prefix, rib: None, rib_out: outs });
        proof {
            let nt = self.tables_view();
            assert(nt.last().rib_out =~= Seq::new(self.bgp_sessions@.len(), |k: int| None::<EntryView>));
            assert(nt =~= tv.push(nt.last()));
            assert(nt.drop_last() =~= tv);
        }
        self.tables.len() - 1
    }

    /// Sends the selected route for `prefix` to every peer, in the order of the sessions, as
    /// `dissemination` describes: the outgoing RIB of the prefix takes the routes sent, the undo
    /// actions are added to the last frame of the undo stack, and the events are added to the
    /// queue with the ID of their parent event. The tables of the prefix are created, with no
    /// routes, where the router has none yet.
    pub fn run_bgp_route_dissemination_for_prefix(
        &mut self,
        prefix: Prefix,
        queue: &mut Vec<(Event, usize)>,
        parent_event_id: usize,
    ) -> (r: Result<(), DeviceError>)
        requires
            old(self).wf(),
            old(self).undo_view().len() > 0,
        ensures
            final(self).wf(),
            final(self).id() == old(self).id(),
            final(self).sessions() == old(self).sessions(),
            final(self).maps_out() == old(self).maps_out(),
            ({
                let tv0 = old(self).tables_view();
                let tv1 = final(self).tables_view();
                let t = table_of(tv1, prefix)->Some_0;
                let base = if table_of(tv0, prefix) is Some {
                    tv0
                } else {
                    tv0.push(
                        TableView {
                            prefix: prefix,
                            rib: None,
                            rib_out: Seq::new(old(self).sessions().len(), |k: int| None),
                        },
                    )
                };
                let d = dissemination(
                    old(self).id(),
                    old(self).sessions(),
                    old(self).maps_out(),
                    prefix,
                    base[t].rib,
                    base[t].rib_out,
                    old(self).sessions().len() as int,
                );
                &&& table_of(tv1, prefix) is Some
                &&& table_of(base, prefix) == table_of(tv1, prefix)
                &&& tv1 == base.update(t, TableView { rib_out: d.0, ..base[t] })
                &&& final(self).undo_view() == old(self).undo_view().drop_last().push(
                    old(self).undo_view().last() + d.1,
                )
                &&& final(queue)@.map_values(|q: (Event, usize)| (q.0@, q.1)) == old(queue)@.map_values(
                    |q: (Event, usize)| (q.0@, q.1),
                ) + d.2.map_values(|x: (RouterId, RouterId, EventView)| (x, parent_event_id))
                &&& (r is Ok <==> d.3 is None)
                &&& r matches Err(e) ==> d.3 == Some(e)
            }),
    {
        let ghost tv0 = self.tables_view();
        let ghost q0 = queue@.map_values(|q: (Event, usize)| (q.0@, q.1));
        let ghost u0 = self.undo_view();
        let t = self.table_index(prefix);
        let ghost base = self.tables_view();
        let mut table = self.tables.remove(t);
        let ghost rib = opt_view(table.rib);
        let ghost outs0 = table@.rib_out;
        let mut frame = self.undo_stack.pop().unwrap();
        let ghost f0 = frame@.map_values(|a: UndoAction| a@);
        let n = self.bgp_sessions.len();
        let mut i: usize = 0;
        let mut result: Result<(), DeviceError> = Ok(());
        while i < n
            invariant_except_break
                result is Ok,
            invariant
                n == self.bgp_sessions@.len(),
                i <= n,
                table@.rib_out.len() == n,
                table.prefix == prefix,
                opt_view(table.rib) == rib,
                ({
                    let d = dissemination(self.router_id, self.bgp_sessions@, self.bgp_route_maps_out@, prefix, rib, outs0, i as int);
                    &&& table@.rib_out == d.0
                    &&& frame@.map_values(|a: UndoAction| a@) == f0 + d.1
                    &&& queue@.map_values(|q: (Event, usize)| (q.0@, q.1)) == q0 + d.2.map_values(
                        |x: (RouterId, RouterId, EventView)| (x, parent_event_id),
                    )
                    &&& (result is Ok <==> d.3 is None)
                    &&& (result matches Err(e) ==> d.3 == Some(e))
                }),
            ensures
                i <= n,
                result is Ok ==> i == n,
                table@.rib_out.len() == n,
                table.prefix == prefix,
                opt_view(table.rib) == rib,
                ({
                    let d = dissemination(self.router_id, self.bgp_sessions@, self.bgp_route_maps_out@, prefix, rib, outs0, i as int);
                    &&& table@.rib_out == d.0
                    &&& frame@.map_values(|a: UndoAction| a@) == f0 + d.1
                    &&& queue@.map_values(|q: (Event, usize)| (q.0@, q.1)) == q0 + d.2.map_values(
                        |x: (RouterId, RouterId, EventView)| (x, parent_event_id),
                    )
                    &&& (result is Ok <==> d.3 is None)
                    &&& (result matches Err(e) ==> d.3 == Some(e))
                }),
            decreases n - i,
        {
            let ghost d0 = dissemination(self.router_id, self.bgp_sessions@, self.bgp_route_maps_out@, prefix, rib, outs0, i as int);
            let ghost fv0 = frame@.map_values(|a: UndoAction| a@);
            let ghost qv0 = queue@.map_values(|q: (Event, usize)| (q.0@, q.1));
            let peer = self.bgp_sessions[i].0;
            let peer_type = self.bgp_sessions[i].1;
            let best = match &table.rib {
                Some(e) => self.process_bgp_rib_out_route(e, peer, peer_type),
                None => None,
            };
            let current = copy_opt(&table.rib_out[i]);
            let ghost o = table@.rib_out;
            match (best, current) {
                (Some(b), Some(c)) => {
                    if b.route.equals(&c.route) {
                    } else {
                        match self.should_export_route(b.from_id, peer, peer_type) {
                            None => {
                                result = Err(DeviceError::NoBgpSession(b.from_id));
                            },
                            Some(true) => {
                                let route = b.route.copy();
                                table.rib_out.set(i, Some(b));
                                push_undo(&mut frame, UndoAction::UpdateBgpRibOut(prefix, peer, c));
                                push_event(queue, Event::Bgp(self.router_id, peer, BgpEvent::Update(route)), parent_event_id);
                            },
                            Some(false) => {
                                table.rib_out.set(i, None);
                                push_undo(&mut frame, UndoAction::UpdateBgpRibOut(prefix, peer, c));
                                push_event(queue, Event::Bgp(self.router_id, peer, BgpEvent::Withdraw(prefix)), parent_event_id);
                            },
                        }
                    }
                },
                (Some(b), None) => {
                    match self.should_export_route(b.from_id, peer, peer_type) {
                        None => {
                            result = Err(DeviceError::NoBgpSession(b.from_id));
                        },
                        Some(true) => {
                            let route = b.route.copy();
                            table.rib_out.set(i, Some(b));
                            push_undo(&mut frame, UndoAction::RemoveBgpRibOut(prefix, peer));
                            push_event(queue, Event::Bgp(self.router_id, peer, BgpEvent::Update(route)), parent_event_id);
                        },
                        Some(false) => {},
                    }
                },
                (None, Some(c)) => {
                    table.rib_out.set(i, None);
                    push_undo(&mut frame, UndoAction::UpdateBgpRibOut(prefix, peer, c));
                    push_event(queue, Event::Bgp(self.router_id, peer, BgpEvent::Withdraw(prefix)), parent_event_id);
                },
                (None, None) => {},
            }
            proof {
                let d1 = dissemination(self.router_id, self.bgp_sessions@, self.bgp_route_maps_out@, prefix, rib, outs0, i + 1);
                assert(o[i as int] == d0.0[i as int]);
                assert(table@.rib_out =~= d1.0);
                if d1.1.len() > d0.1.len() {
                    assert(f0 + d1.1 =~= (f0 + d0.1).push(d1.1.last()));
                }
                assert(frame@.map_values(|a: UndoAction| a@) =~= f0 + d1.1);
                if d1.2.len() > d0.2.len() {
                    assert(d1.2.map_values(|x: (RouterId, RouterId, EventView)| (x, parent_event_id)) =~= d0.2.map_values(
                        |x: (RouterId, RouterId, EventView)| (x, parent_event_id),
                    ).push((d1.2.last(), parent_event_id)));
                    assert(q0 + d1.2.map_values(|x: (RouterId, RouterId, EventView)| (x, parent_event_id)) =~= (q0
                        + d0.2.map_values(|x: (RouterId, RouterId, EventView)| (x, parent_event_id))).push(
                        (d1.2.last(), parent_event_id),
                    ));
                }
                assert(queue@.map_values(|q: (Event, usize)| (q.0@, q.1)) =~= q0 + d1.2.map_values(
                    |x: (RouterId, RouterId, EventView)| (x, parent_event_id),
                ));
            }
            i += 1;
            if result.is_err() {
                break;
            }
        }
        proof {
            if result.is_err() {
                lemma_stopped(self.router_id, self.bgp_sessions@, self.bgp_route_maps_out@, prefix, rib, outs0, i as int, n as int);
            }
        }
        self.tables.insert(t, table);
        self.undo_stack.push(frame);
        proof {
            assert(self.tables_view() =~= base.update(t as int, self.tables@[t as int]@));
            lemma_table_of_update(base, prefix, t as int, self.tables@[t as int]@);
            assert(self.undo_view() =~= u0.drop_last().push(self.undo_view().last()));
        }
        result
    }

    /// The entry that the router sends to `peer` for its selected entry; see `exported_entry`.
    fn process_bgp_rib_out_route(&self, entry: &BgpRibEntry, target_peer: RouterId, peer_type: BgpSessionType) -> (r: Option<
        BgpRibEntry,
    >)
        ensures
            opt_view(r) == exported_entry(entry@, target_peer, peer_type, self.bgp_route_maps_out@, self.router_id),
    {
        let mut entry = entry.copy();
        // set the to_id to the target peer
        entry.to_id = Some(target_peer);
        // apply bgp_route_map_out
        let (_, out) = apply_route_maps(&self.bgp_route_maps_out, entry);
        let mut entry = match out {
            Some(e) => e,
            None => {
                return None;
            },
        };
        entry.from_type = peer_type;
        // if the peer type is external, overwrite values of the route accordingly.
        if peer_type == BgpSessionType::EBgp {
            entry.route.next_hop = self.router_id;
            entry.route.local_pref = None;
        }
        Some(entry)
    }

    /// Whether the route learned from `from` is exported to `to`; see `export_decision`.
    #[verifier::loop_isolation(false)]
    fn should_export_route(&self, from: RouterId, to: RouterId, to_type: BgpSessionType) -> (r: Option<bool>)
        ensures
            r == export_decision(self.bgp_sessions@, from, to, to_type),
    {
        // never advertise a route to the receiver
        if from == to {
            return Some(false);
        }
        // check the types
        let mut k: usize = 0;
        proof {
            assert(self.bgp_sessions@.skip(0) =~= self.bgp_sessions@);
        }
        while k < self.bgp_sessions.len()
            invariant
                k <= self.bgp_sessions@.len(),
                session_with(self.bgp_sessions@, from) == session_with(self.bgp_sessions@.skip(k as int), from),
            decreases self.bgp_sessions@.len() - k,
        {
            proof {
                assert(self.bgp_sessions@.skip(k as int).drop_first() =~= self.bgp_sessions@.skip(k + 1));
                assert(self.bgp_sessions@.skip(k as int)[0] == self.bgp_sessions@[k as int]);
            }
            if self.bgp_sessions[k].0 == from {
                let from_type = self.bgp_sessions[k].1;
                return Some(
                    from_type == BgpSessionType::EBgp || from_type == BgpSessionType::IBgpClient || to_type
                        == BgpSessionType::EBgp || to_type == BgpSessionType::IBgpClient,
                );
            }
            k += 1;
        }
        None
    }
}

/// Adds an undo action to the frame.
fn push_undo(frame: &mut Vec<UndoAction>, a: UndoAction)
    ensures
        final(frame)@.map_values(|x: UndoAction| x@) == old(frame)@.map_values(|x: UndoAction| x@).push(a@),
{
    let ghost av = a@;
    frame.push(a);
    assert(frame@.map_values(|x: UndoAction| x@) =~= old(frame)@.map_values(|x: UndoAction| x@).push(av));
}

/// Adds an event, with the ID of its parent, to the queue.
fn push_event(queue: &mut Vec<(Event, usize)>, e: Event, parent: usize)
    ensures
        final(queue)@.map_values(|q: (Event, usize)| (q.0@, q.1)) == old(queue)@.map_values(
            |q: (Event, usize)| (q.0@, q.1),
        ).push((e@, parent)),
{
    let ghost ev = e@;
    queue.push((e, parent));
    assert(queue@.map_values(|q: (Event, usize)| (q.0@, q.1)) =~= old(queue)@.map_values(
        |q: (Event, usize)| (q.0@, q.1),
    ).push((ev, parent)));
}

/// A copy of an optional entry.
fn copy_opt(o: &Option<BgpRibEntry>) -> (r: Option<BgpRibEntry>)
    ensures
        opt_view(r) == opt_view(*o),
{
    match o {
        Some(e) => Some(e.copy()),
        None => None,
    }
}

/// Once the dissemination has stopped, further peers change nothing.
proof fn lemma_stopped(
    router_id: RouterId,
    sessions: Seq<(RouterId, BgpSessionType)>,
    maps: Seq<RouteMap>,
    prefix: Prefix,
    rib: Option<EntryView>,
    outs: Seq<Option<EntryView>>,
    i: int,
    k: int,
)
    requires
        0 <= i <= k,
        dissemination(router_id, sessions, maps, prefix, rib, outs, i).3 is Some,
    ensures
        dissemination(router_id, sessions, maps, prefix, rib, outs, k) == dissemination(
            router_id,
            sessions,
            maps,
            prefix,
            rib,
            outs,
            i,
        ),
    decreases k - i,
{
    if k > i {
        lemma_stopped(router_id, sessions, maps, prefix, rib, outs, i, k - 1);
    }
}

/// Replacing the tables at position `t` by tables of the same prefix keeps where the tables of
/// `prefix` are.
proof fn lemma_table_of_update(tv: Seq<TableView>, prefix: Prefix, t: int, x: TableView)
    requires
        0 <= t < tv.len(),
        x.prefix == tv[t].prefix,
    ensures
        table_of(tv.update(t, x), prefix) == table_of(tv, prefix),
    decreases tv.len(),
{
    if tv.len() > 0 {
        let u = tv.update(t, x);
        if t < tv.len() - 1 {
            assert(u.drop_last() =~= tv.drop_last().update(t, x));
            lemma_table_of_update(tv.drop_last(), prefix, t, x);
        } else {
            assert(u.drop_last() =~= tv.drop_last());
        }
    }
}

} // verus!
