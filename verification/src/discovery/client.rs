use std::collections::VecDeque;
use vstd::prelude::*;

use crate::discovery::proto::{Msg, PeerAddr};
use crate::piece::PieceRef;
use crate::table::{Keyed, PieceTable};

verus! {

/// What is known of one piece: the peers that offer it and the peers that
/// were caught failing to deliver it.
pub struct PieceView {
    pub peers: Set<PeerAddr>,
    pub blacklist: Set<PeerAddr>,
}

/// The view of a piece about which nothing is known yet.
pub open spec fn unknown_piece() -> PieceView {
    PieceView { peers: Set::empty(), blacklist: Set::empty() }
}

/// `info` after peers `addrs` offered the piece: each of them that is not blacklisted joins.
pub open spec fn with_peers(info: PieceView, addrs: Set<PeerAddr>) -> PieceView {
    PieceView { peers: info.peers.union(addrs.difference(info.blacklist)), blacklist: info.blacklist }
}

/// `info` after peer `addr` was caught failing: it leaves the peers and is blacklisted.
pub open spec fn with_blacklisted(info: PieceView, addr: PeerAddr) -> PieceView {
    PieceView { peers: info.peers.remove(addr), blacklist: info.blacklist.insert(addr) }
}

/// No peer of `info` is blacklisted.
pub open spec fn peers_not_blacklisted(info: PieceView) -> bool {
    info.peers.disjoint(info.blacklist)
}

/// Once a peer is blacklisted for a piece it stays so, and no later offer makes it a
/// peer of that piece again; every change keeps the peers apart from the blacklist.
pub proof fn lemma_blacklist_is_permanent(info: PieceView, a: PeerAddr, addrs: Set<PeerAddr>, b: PeerAddr)
    requires
        peers_not_blacklisted(info),
        info.blacklist.contains(a),
    ensures
        with_peers(info, addrs).blacklist.contains(a),
        !with_peers(info, addrs).peers.contains(a),
        peers_not_blacklisted(with_peers(info, addrs)),
        with_blacklisted(info, b).blacklist.contains(a),
        !with_blacklisted(info, b).peers.contains(a),
        peers_not_blacklisted(with_blacklisted(info, b)),
{
}

/// A peer reported as failing is no peer of the piece afterwards, whatever it offers.
pub proof fn lemma_failed_peer_not_offered_again(info: PieceView, a: PeerAddr, addrs: Set<PeerAddr>)
    requires
        peers_not_blacklisted(info),
    ensures
        !with_peers(with_blacklisted(info, a), addrs).peers.contains(a),
{
}

/// One thing learned about the peers of a piece.
pub enum PeerEvent {
    /// These peers said they hold the piece.
    Offered(Set<PeerAddr>),
    /// This peer failed to deliver the piece.
    Failed(PeerAddr),
}

/// What is known of a piece after the events `events`, in order, starting from nothing.
pub open spec fn replay(events: Seq<PeerEvent>) -> PieceView
    decreases events.len(),
{
    if events.len() == 0 {
        unknown_piece()
    } else {
        let before = replay(events.drop_last());
        match events.last() {
            PeerEvent::Offered(addrs) => with_peers(before, addrs),
            PeerEvent::Failed(addr) => with_blacklisted(before, addr),
        }
    }
}

/// Every peer that some event of `events` offered.
pub open spec fn all_offered(events: Seq<PeerEvent>) -> Set<PeerAddr>
    decreases events.len(),
{
    if events.len() == 0 {
        Set::empty()
    } else {
        match events.last() {
            PeerEvent::Offered(addrs) => all_offered(events.drop_last()).union(addrs),
            PeerEvent::Failed(_) => all_offered(events.drop_last()),
        }
    }
}

/// Every peer that some event of `events` reported as failing.
pub open spec fn all_failed(events: Seq<PeerEvent>) -> Set<PeerAddr>
    decreases events.len(),
{
    if events.len() == 0 {
        Set::empty()
    } else {
        match events.last() {
            PeerEvent::Offered(_) => all_failed(events.drop_last()),
            PeerEvent::Failed(addr) => all_failed(events.drop_last()).insert(addr),
        }
    }
}

/// Whatever the order of events, the peers of a piece are exactly the peers ever
/// offered that were never reported as failing, before or after their offer; the
/// blacklist is exactly the peers ever reported as failing.
pub proof fn lemma_replay(events: Seq<PeerEvent>)
    ensures
        replay(events).peers == all_offered(events).difference(all_failed(events)),
        replay(events).blacklist == all_failed(events),
    decreases events.len(),
{
    if events.len() == 0 {
        assert(unknown_piece().peers =~= Set::<PeerAddr>::empty().difference(Set::<PeerAddr>::empty()));
    } else {
        let prev = events.drop_last();
        lemma_replay(prev);
        match events.last() {
            PeerEvent::Offered(addrs) => {
                assert(replay(events).peers =~= all_offered(events).difference(all_failed(events)));
            },
            PeerEvent::Failed(addr) => {
                assert(replay(events).peers =~= all_offered(events).difference(all_failed(events)));
            },
        }
    }
}

/// One thing learned about the peers of one piece, the piece named by its digest.
pub enum DiscoveryEvent {
    Offered(Seq<u8>, Set<PeerAddr>),
    Failed(Seq<u8>, PeerAddr),
}

/// `pieces` after `event`: the change that `DiscoveredPieces::add_piece_peer` and
/// `DiscoveredPieces::remove_piece_peer` make.
pub open spec fn apply_event(pieces: Map<Seq<u8>, PieceView>, event: DiscoveryEvent) -> Map<Seq<u8>, PieceView> {
    match event {
        DiscoveryEvent::Offered(k, addrs) => pieces.insert(k, with_peers(piece_view(pieces, k), addrs)),
        DiscoveryEvent::Failed(k, addr) => pieces.insert(k, with_blacklisted(piece_view(pieces, k), addr)),
    }
}

/// What is known of all pieces after the events `events`, starting from nothing.
pub open spec fn replay_pieces(events: Seq<DiscoveryEvent>) -> Map<Seq<u8>, PieceView>
    decreases events.len(),
{
    if events.len() == 0 {
        Map::empty()
    } else {
        apply_event(replay_pieces(events.drop_last()), events.last())
    }
}

/// The events of `events` about the piece with digest `k`, in order.
pub open spec fn piece_events(events: Seq<DiscoveryEvent>, k: Seq<u8>) -> Seq<PeerEvent>
    decreases events.len(),
{
    if events.len() == 0 {
        Seq::empty()
    } else {
        let before = piece_events(events.drop_last(), k);
        match events.last() {
            DiscoveryEvent::Offered(p, addrs) => if p == k { before.push(PeerEvent::Offered(addrs)) } else { before },
            DiscoveryEvent::Failed(p, addr) => if p == k { before.push(PeerEvent::Failed(addr)) } else { before },
        }
    }
}

/// Over any history of offers and failures, what is known of a piece depends only on
/// the events about that piece: its peers are the peers ever offered for it that were
/// never reported as failing for it, and its blacklist the peers reported as failing.
pub proof fn lemma_replay_pieces(events: Seq<DiscoveryEvent>, k: Seq<u8>)
    ensures
        piece_view(replay_pieces(events), k) == replay(piece_events(events, k)),
        piece_view(replay_pieces(events), k).peers
            == all_offered(piece_events(events, k)).difference(all_failed(piece_events(events, k))),
        piece_view(replay_pieces(events), k).blacklist == all_failed(piece_events(events, k)),
    decreases events.len(),
{
    if events.len() > 0 {
        lemma_replay_pieces(events.drop_last(), k);
        let pe = piece_events(events, k);
        let before = piece_events(events.drop_last(), k);
        match events.last() {
            DiscoveryEvent::Offered(p, addrs) => {
                if p == k {
                    assert(pe.drop_last() =~= before);
                }
            },
            DiscoveryEvent::Failed(p, addr) => {
                if p == k {
                    assert(pe.drop_last() =~= before);
                }
            },
        }
    }
    lemma_replay(piece_events(events, k));
}

fn contains_addr(s: &Vec<PeerAddr>, a: &PeerAddr) -> (found: Option<usize>)
    ensures
        match found {
            Some(i) => i < s@.len() && s@[i as int] == *a,
            None => !s@.contains(*a),
        },
{
    let mut i: usize = 0;
    while i < s.len()
        invariant
            0 <= i <= s@.len(),
            forall|j: int| 0 <= j < i ==> s@[j] != *a,
        decreases s@.len() - i,
    {
        if s[i] == *a {
            return Some(i);
        }
        i = i + 1;
    }
    None
}

proof fn lemma_push_set<A>(s: Seq<A>, a: A)
    requires
        s.no_duplicates(),
        !s.contains(a),
    ensures
        s.push(a).no_duplicates(),
        s.push(a).to_set() == s.to_set().insert(a),
{
    let t = s.push(a);
    assert forall|i: int, j: int| 0 <= i < t.len() && 0 <= j < t.len() && i != j implies t[i] != t[j] by {
        if i < s.len() && j < s.len() {
        } else if i < s.len() {
            assert(s.contains(s[i]));
        } else {
            assert(s.contains(s[j]));
        }
    }
    assert forall|x: A| #[trigger] t.to_set().contains(x) <==> s.to_set().insert(a).contains(x) by {
        if t.contains(x) {
            let i = choose|i: int| 0 <= i < t.len() && t[i] == x;
            if i < s.len() {
                assert(s[i] == x);
            }
        }
        if s.contains(x) {
            let i = choose|i: int| 0 <= i < s.len() && s[i] == x;
            assert(t[i] == x);
        }
        if x == a {
            assert(t[s.len() as int] == a);
        }
    }
    assert(t.to_set() =~= s.to_set().insert(a));
}

proof fn lemma_remove_set<A>(s: Seq<A>, i: int)
    requires
        s.no_duplicates(),
        0 <= i < s.len(),
    ensures
        s.remove(i).no_duplicates(),
        s.remove(i).to_set() == s.to_set().remove(s[i]),
{
    let t = s.remove(i);
    assert forall|a: int, b: int| 0 <= a < t.len() && 0 <= b < t.len() && a != b implies t[a] != t[b] by {
        let a2 = if a < i { a } else { a + 1 };
        let b2 = if b < i { b } else { b + 1 };
        assert(t[a] == s[a2] && t[b] == s[b2]);
    }
    assert forall|x: A| #[trigger] t.to_set().contains(x) <==> s.to_set().remove(s[i]).contains(x) by {
        if t.contains(x) {
            let a = choose|a: int| 0 <= a < t.len() && t[a] == x;
            let a2 = if a < i { a } else { a + 1 };
            assert(s[a2] == x);
        }
        if s.contains(x) && x != s[i] {
            let a = choose|a: int| 0 <= a < s.len() && s[a] == x;
            if a < i {
                assert(t[a] == x);
            } else {
                assert(t[a - 1] == x);
            }
        }
    }
    assert(t.to_set() =~= s.to_set().remove(s[i]));
}

/// The peers known for one piece.
struct PieceInfo {
    peers: Vec<PeerAddr>,
    blacklist: Vec<PeerAddr>,
}

impl PieceInfo {
    #[verifier::type_invariant]
    spec fn well_formed(&self) -> bool {
        &&& self.peers@.no_duplicates()
        &&& self.blacklist@.no_duplicates()
        &&& self.peers@.to_set().disjoint(self.blacklist@.to_set())
    }

    spec fn view(&self) -> PieceView {
        PieceView { peers: self.peers@.to_set(), blacklist: self.blacklist@.to_set() }
    }

    fn new() -> (p: PieceInfo)
        ensures
            p.view() == unknown_piece(),
    {
        let p = PieceInfo { peers: Vec::new(), blacklist: Vec::new() };
        assert(p.view().peers =~= Set::<PeerAddr>::empty());
        assert(p.view().blacklist =~= Set::<PeerAddr>::empty());
        p
    }

    fn add_peer(self, addrs: &[PeerAddr]) -> (p: PieceInfo)
        ensures
            p.view() == with_peers(self.view(), addrs@.to_set()),
    {
        proof { use_type_invariant(&self); }
        let PieceInfo { mut peers, blacklist } = self;
        let mut i: usize = 0;
        while i < addrs.len()
            invariant
                0 <= i <= addrs@.len(),
                peers@.no_duplicates(),
                blacklist@.no_duplicates(),
                peers@.to_set().disjoint(blacklist@.to_set()),
                blacklist@ == self.blacklist@,
                peers@.to_set() == self.peers@.to_set().union(
                    addrs@.subrange(0, i as int).to_set().difference(blacklist@.to_set()),
                ),
            decreases addrs@.len() - i,
        {
            let a = addrs[i];
            let ghost before = peers@;
            assert(addrs@.subrange(0, i + 1).to_set() =~= addrs@.subrange(0, i as int).to_set().insert(a)) by {
                let s0 = addrs@.subrange(0, i as int);
                let s1 = addrs@.subrange(0, i + 1);
                assert forall|x: PeerAddr| #[trigger] s1.to_set().contains(x) <==> s0.to_set().insert(a).contains(x) by {
                    if s1.contains(x) {
                        let k = choose|k: int| 0 <= k < s1.len() && s1[k] == x;
                        if k < i {
                            assert(s0[k] == x);
                        }
                    }
                    if s0.contains(x) {
                        let k = choose|k: int| 0 <= k < s0.len() && s0[k] == x;
                        assert(s1[k] == x);
                    }
                    if x == a {
                        assert(s1[i as int] == a);
                    }
                }
            }
            if contains_addr(&blacklist, &a).is_none() && contains_addr(&peers, &a).is_none() {
                proof { lemma_push_set(before, a); }
                peers.push(a);
            }
            proof {
                assert(peers@.to_set() =~= self.peers@.to_set().union(
                    addrs@.subrange(0, i + 1).to_set().difference(blacklist@.to_set()),
                ));
            }
            i = i + 1;
        }
        assert(addrs@.subrange(0, addrs@.len() as int) =~= addrs@);
        PieceInfo { peers, blacklist }
    }

    fn blacklist_peer(self, addr: &PeerAddr) -> (p: PieceInfo)
        ensures
            p.view() == with_blacklisted(self.view(), *addr),
    {
        proof { use_type_invariant(&self); }
        let PieceInfo { mut peers, mut blacklist } = self;
        if let Some(i) = contains_addr(&peers, addr) {
            proof { lemma_remove_set(peers@, i as int); }
            peers.remove(i);
        } else {
            assert(peers@.to_set() =~= self.peers@.to_set().remove(*addr));
        }
        if contains_addr(&blacklist, addr).is_none() {
            proof { lemma_push_set(blacklist@, *addr); }
            blacklist.push(*addr);
        } else {
            assert(blacklist@.to_set() =~= self.blacklist@.to_set().insert(*addr));
        }
        assert(peers@.to_set().disjoint(blacklist@.to_set()));
        PieceInfo { peers, blacklist }
    }

    fn peers(&self) -> (v: Vec<PeerAddr>)
        ensures
            v@.no_duplicates(),
            v@.to_set() == self.view().peers,
            v@.to_set().disjoint(self.view().blacklist),
    {
        proof { use_type_invariant(self); }
        let mut v: Vec<PeerAddr> = Vec::new();
        let mut i: usize = 0;
        while i < self.peers.len()
            invariant
                0 <= i <= self.peers@.len(),
                v@ == self.peers@.subrange(0, i as int),
            decreases self.peers@.len() - i,
        {
            v.push(self.peers[i]);
            i = i + 1;
            assert(v@ =~= self.peers@.subrange(0, i as int));
        }
        assert(v@ =~= self.peers@);
        v
    }
}

/// What is known of every piece, and which pieces are waiting to be looked for.
pub struct DiscoveryView {
    pub pieces: Map<Seq<u8>, PieceView>,
    pub queue: Seq<PieceRef>,
}

/// What is known of the piece with reference `k` in `pieces`.
pub open spec fn piece_view(pieces: Map<Seq<u8>, PieceView>, k: Seq<u8>) -> PieceView {
    if pieces.dom().contains(k) { pieces[k] } else { unknown_piece() }
}

/// No peer of any piece is blacklisted for that piece.
pub open spec fn no_blacklisted_peers(pieces: Map<Seq<u8>, PieceView>) -> bool {
    forall|k: Seq<u8>| #[trigger] pieces.dom().contains(k) ==> peers_not_blacklisted(pieces[k])
}

struct PieceEntry {
    piece: PieceRef,
    info: PieceInfo,
}

impl Keyed for PieceEntry {
    type Value = PieceView;

    closed spec fn key(&self) -> Seq<u8> {
        self.piece@
    }

    closed spec fn entry_view(&self) -> PieceView {
        self.info.view()
    }

    fn key_ref(&self) -> (r: &PieceRef) {
        &self.piece
    }
}

/// A change in what is known of the peers of a piece.
enum PeerChange<'a> {
    /// The peers at these addresses said they hold the piece.
    Offered(&'a [PeerAddr]),
    /// The peer at this address failed to deliver the piece.
    Failed(PeerAddr),
}

spec fn apply_change(info: PieceView, change: PeerChange) -> PieceView {
    match change {
        PeerChange::Offered(addrs) => with_peers(info, addrs@.to_set()),
        PeerChange::Failed(addr) => with_blacklisted(info, addr),
    }
}

/// The state of the discovery client.
struct DiscoveredPiecesInner {
    pieces: PieceTable<PieceEntry>,
    queue: VecDeque<PieceRef>,
}

impl DiscoveredPiecesInner {
    #[verifier::type_invariant]
    spec fn well_formed(&self) -> bool {
        no_blacklisted_peers(self.pieces@)
    }

    spec fn view(&self) -> DiscoveryView {
        DiscoveryView { pieces: self.pieces@, queue: self.queue@ }
    }

    fn new() -> (d: DiscoveredPiecesInner)
        ensures
            d.view().pieces == Map::<Seq<u8>, PieceView>::empty(),
            d.view().queue == Seq::<PieceRef>::empty(),
    {
        DiscoveredPiecesInner { pieces: PieceTable::new(), queue: VecDeque::new() }
    }

    fn change_piece(&mut self, piece: &PieceRef, change: PeerChange)
        ensures
            final(self).view().queue == old(self).view().queue,
            final(self).view().pieces == old(self).view().pieces.insert(
                piece@,
                apply_change(piece_view(old(self).view().pieces, piece@), change),
            ),
    {
        proof { use_type_invariant(&*self); }
        let mut table: PieceTable<PieceEntry> = PieceTable::new();
        std::mem::swap(&mut table, &mut self.pieces);
        let ghost before = table@;
        let info = match table.take(piece) {
            Some(e) => {
                proof { use_type_invariant(&e.info); }
                e.info
            },
            None => {
                let info = PieceInfo::new();
                assert(unknown_piece().peers =~= Set::<PeerAddr>::empty());
                info
            },
        };
        let info = match change {
            PeerChange::Offered(addrs) => info.add_peer(addrs),
            PeerChange::Failed(addr) => info.blacklist_peer(&addr),
        };
        proof { use_type_invariant(&info); }
        let e = PieceEntry { piece: *piece, info };
        table.insert(e);
        proof {
            assert(table@ =~= before.insert(piece@, e.info.view()));
            assert forall|k: Seq<u8>| #[trigger] table@.dom().contains(k) implies peers_not_blacklisted(table@[k]) by {
                if k != piece@ {
                    assert(before.dom().contains(k));
                }
            }
        }
        self.pieces = table;
    }

    fn get_piece_peers(&self, piece: &PieceRef) -> (v: Vec<PeerAddr>)
        ensures
            v@.no_duplicates(),
            v@.to_set() == piece_view(self.view().pieces, piece@).peers,
            v@.to_set().disjoint(piece_view(self.view().pieces, piece@).blacklist),
    {
        proof { use_type_invariant(self); }
        match self.pieces.get(piece) {
            Some(e) => e.info.peers(),
            None => {
                let v: Vec<PeerAddr> = Vec::new();
                assert(v@.to_set() =~= Set::<PeerAddr>::empty());
                v
            },
        }
    }
}

/// The pieces a download looks for and the peers found to hold them; shared between
/// the download and the tasks that send and receive discovery messages.
pub struct DiscoveredPieces {
    inner: DiscoveredPiecesInner,
}

impl View for DiscoveredPieces {
    type V = DiscoveryView;

    closed spec fn view(&self) -> DiscoveryView {
        self.inner.view()
    }
}

impl DiscoveredPieces {
    /// No piece known and none waiting.
    pub fn new() -> (d: DiscoveredPieces)
        ensures
            d@.pieces == Map::<Seq<u8>, PieceView>::empty(),
            d@.pieces == replay_pieces(Seq::empty()),
            d@.queue == Seq::<PieceRef>::empty(),
            no_blacklisted_peers(d@.pieces),
    {
        let d = DiscoveredPieces { inner: DiscoveredPiecesInner::new() };
        proof {
            use_type_invariant(&d.inner);
        }
        d
    }

    /// Records that the peers at `addrs` hold `piece`; blacklisted ones are left out.
    pub fn add_piece_peer(&mut self, piece: &PieceRef, addrs: &[PeerAddr])
        ensures
            final(self)@.queue == old(self)@.queue,
            final(self)@.pieces == old(self)@.pieces.insert(
                piece@,
                with_peers(piece_view(old(self)@.pieces, piece@), addrs@.to_set()),
            ),
            final(self)@.pieces == apply_event(old(self)@.pieces, DiscoveryEvent::Offered(piece@, addrs@.to_set())),
            no_blacklisted_peers(final(self)@.pieces),
    {
        self.inner.change_piece(piece, PeerChange::Offered(addrs));
        proof {
            use_type_invariant(&self.inner);
        }
    }

    /// Records that the peer at `addr` failed to deliver `piece`: it is dropped from the
    /// piece's peers and never recorded for that piece again.
    pub fn remove_piece_peer(&mut self, piece: &PieceRef, addr: &PeerAddr)
        ensures
            final(self)@.queue == old(self)@.queue,
            final(self)@.pieces == old(self)@.pieces.insert(
                piece@,
                with_blacklisted(piece_view(old(self)@.pieces, piece@), *addr),
            ),
            final(self)@.pieces == apply_event(old(self)@.pieces, DiscoveryEvent::Failed(piece@, *addr)),
            no_blacklisted_peers(final(self)@.pieces),
    {
        self.inner.change_piece(piece, PeerChange::Failed(*addr));
        proof {
            use_type_invariant(&self.inner);
        }
    }

    /// Takes the piece that waits longest to be looked for.
    pub fn dequeue_piece(&mut self) -> (p: Option<PieceRef>)
        ensures
            final(self)@.pieces == old(self)@.pieces,
            old(self)@.queue.len() == 0 ==> p is None && final(self)@.queue == old(self)@.queue,
            old(self)@.queue.len() > 0 ==> p == Some(old(self)@.queue[0])
                && final(self)@.queue == old(self)@.queue.drop_first(),
            no_blacklisted_peers(final(self)@.pieces),
    {
        proof { use_type_invariant(&self.inner); }
        let mut queue: VecDeque<PieceRef> = VecDeque::new();
        std::mem::swap(&mut queue, &mut self.inner.queue);
        let p = queue.pop_front();
        self.inner.queue = queue;
        proof {
            use_type_invariant(&self.inner);
        }
        p
    }

    /// Puts `piece` at the end of the pieces waiting to be looked for.
    pub fn enqueue_piece(&mut self, piece: PieceRef)
        ensures
            final(self)@.pieces == old(self)@.pieces,
            final(self)@.queue == old(self)@.queue.push(piece),
            no_blacklisted_peers(final(self)@.pieces),
    {
        proof { use_type_invariant(&self.inner); }
        let mut queue: VecDeque<PieceRef> = VecDeque::new();
        std::mem::swap(&mut queue, &mut self.inner.queue);
        queue.push_back(piece);
        self.inner.queue = queue;
        proof {
            use_type_invariant(&self.inner);
        }
    }

    /// The peers known to hold `piece`, each once, in no particular order.
    pub fn get_piece_peers(&self, piece: &PieceRef) -> (v: Vec<PeerAddr>)
        ensures
            v@.no_duplicates(),
            v@.to_set() == piece_view(self@.pieces, piece@).peers,
            v@.to_set().disjoint(piece_view(self@.pieces, piece@).blacklist),
    {
        proof {
            use_type_invariant(&self.inner);
        }
        self.inner.get_piece_peers(piece)
    }
}

/// The discovery request to broadcast next: a request for the piece that waits longest.
pub fn query_pieces(manager: &mut DiscoveredPieces) -> (msg: Option<Msg>)
    ensures
        final(manager)@.pieces == old(manager)@.pieces,
        old(manager)@.queue.len() == 0 ==> msg is None && final(manager)@.queue == old(manager)@.queue,
        old(manager)@.queue.len() > 0 ==> msg == Some(Msg::Find(old(manager)@.queue[0]))
            && final(manager)@.queue == old(manager)@.queue.drop_first(),
{
    match manager.dequeue_piece() {
        Some(p) => Some(Msg::Find(p)),
        None => None,
    }
}

/// Takes in a discovery message: a server's answer records its addresses as peers of
/// the piece; any other message changes nothing.
pub fn handle_packet(manager: &mut DiscoveredPieces, msg: Msg)
    ensures
        final(manager)@.queue == old(manager)@.queue,
        match msg {
            Msg::ServerHas(r) => final(manager)@.pieces == old(manager)@.pieces.insert(
                r.piece@,
                with_peers(piece_view(old(manager)@.pieces, r.piece@), r.addrs@.to_set()),
            ),
            Msg::Find(_) => final(manager)@.pieces == old(manager)@.pieces,
        },
{
    match msg {
        Msg::ServerHas(piece_info) => manager.add_piece_peer(&piece_info.piece, piece_info.addrs.as_slice()),
        Msg::Find(_) => {},
    }
}

} // verus!
