//! The membership registry of live processor endpoints, with the
//! round-robin cursor the dispatcher draws targets from.
//!
//! Entries are unique; `add` is idempotent; removal is set difference; the
//! cursor is clamped by modulo on use, so eviction can never make a pick go
//! out of range.

use vstd::prelude::*;
use crate::control::{dec_chars, port_string};
use vstd::arithmetic::div_mod::lemma_add_mod_noop_right;

verus! {

/// The mathematical value of an endpoint: host characters and ingress port.
pub struct EndpointModel {
    pub ip: Seq<char>,
    pub port: u16,
}

/// A processor's ingress endpoint.
pub struct Endpoint {
    pub ip: String,
    pub port: u16,
}

impl View for Endpoint {
    type V = EndpointModel;

    open spec fn view(&self) -> EndpointModel {
        EndpointModel { ip: self.ip@, port: self.port }
    }
}

impl Endpoint {
    pub fn new(ip: String, port: u16) -> (r: Endpoint)
        ensures
            r@ == (EndpointModel { ip: ip@, port: port }),
    {
        Endpoint { ip, port }
    }

    /// An equal copy.
    pub fn duplicate(&self) -> (r: Endpoint)
        ensures
            r@ == self@,
    {
        Endpoint { ip: self.ip.clone(), port: self.port }
    }

    pub fn same_as(&self, other: &Endpoint) -> (r: bool)
        ensures
            r == (self@ == other@),
    {
        self.port == other.port && self.ip == other.ip
    }

    /// The `"<ip>:<port>"` address the dialer and the logs use.
    pub fn address(&self) -> (r: String)
        ensures
            r@ == self@.ip + seq![':'] + dec_chars(self@.port as nat),
    {
        let mut s = self.ip.clone();
        proof {
            reveal_strlit(":");
            assert(":"@ =~= seq![':']);
        }
        s.append(":");
        let p = port_string(self.port);
        s.append(p.as_str());
        s
    }
}

/// The models of a list of endpoints, in order.
pub open spec fn models(es: Seq<Endpoint>) -> Seq<EndpointModel> {
    es.map_values(|e: Endpoint| e@)
}

/// The registry: live endpoints in admission order, plus the cursor.
pub struct Registry {
    entries: Vec<Endpoint>,
    cursor: usize,
}

impl View for Registry {
    type V = Seq<EndpointModel>;

    closed spec fn view(&self) -> Seq<EndpointModel> {
        models(self.entries@)
    }
}

impl Registry {
    /// Entries are unique: at most one registration per endpoint.
    pub open spec fn wf(&self) -> bool {
        forall|i: int, j: int| 0 <= i < j < self@.len() ==> self@[i] != self@[j]
    }

    pub closed spec fn spec_cursor(&self) -> int {
        self.cursor as int
    }

    pub fn new() -> (r: Registry)
        ensures
            r@.len() == 0,
            r.wf(),
            r.spec_cursor() == 0,
    {
        Registry { entries: Vec::new(), cursor: 0 }
    }

    pub fn count(&self) -> (r: usize)
        ensures
            r == self@.len(),
    {
        self.entries.len()
    }

    pub fn contains_endpoint(&self, e: &Endpoint) -> (r: bool)
        ensures
            r == self@.contains(e@),
    {
        let mut i: usize = 0;
        while i < self.entries.len()
            invariant
                i <= self.entries@.len(),
                forall|k: int| 0 <= k < i ==> self@[k] != e@,
            decreases self.entries@.len() - i,
        {
            if self.entries[i].same_as(e) {
                proof {
                    assert(self@[i as int] == e@);
                }
                return true;
            }
            i = i + 1;
        }
        proof {
            assert(!self@.contains(e@));
        }
        false
    }

    /// Registers an endpoint: inserted if absent, silently kept if present.
    pub fn add(&mut self, e: Endpoint)
        requires
            old(self).wf(),
        ensures
            final(self).wf(),
            old(self)@.contains(e@) ==> final(self)@ == old(self)@,
            !old(self)@.contains(e@) ==> final(self)@ == old(self)@.push(e@),
            final(self).spec_cursor() == old(self).spec_cursor(),
    {
        if !self.contains_endpoint(&e) {
            let ghost before = self@;
            self.entries.push(e);
            proof {
                assert(self@ =~= before.push(e@));
            }
        }
    }

    /// Removes every entry whose host is `ip`: what `disconnect` asks for.
    pub fn remove_host(&mut self, ip: &String)
        requires
            old(self).wf(),
        ensures
            final(self).wf(),
            final(self)@ == old(self)@.filter(|m: EndpointModel| m.ip != ip@),
            final(self).spec_cursor() == old(self).spec_cursor(),
    {
        let ghost all = self@;
        let mut kept: Vec<Endpoint> = Vec::new();
        let mut i: usize = 0;
        proof {
            reveal(Seq::filter);
            assert(all.take(0) =~= Seq::<EndpointModel>::empty());
            assert(Seq::<EndpointModel>::empty().filter(|m: EndpointModel| m.ip != ip@)
                =~= Seq::<EndpointModel>::empty());
        }
        while i < self.entries.len()
            invariant
                i <= self.entries@.len(),
                self@ == all,
                models(kept@) == all.take(i as int).filter(|m: EndpointModel| m.ip != ip@),
            decreases self.entries@.len() - i,
        {
            let ghost prefix = all.take(i as int);
            proof {
                reveal(Seq::filter);
                assert(all.take(i as int + 1) =~= prefix.push(all[i as int]));
                assert(prefix.push(all[i as int]).drop_last() =~= prefix);
            }
            if !(self.entries[i].ip == *ip) {
                let ghost ks = kept@;
                kept.push(self.entries[i].duplicate());
                proof {
                    assert(models(kept@) =~= models(ks).push(all[i as int]));
                }
            }
            i = i + 1;
        }
        proof {
            assert(all.take(i as int) =~= all);
        }
        self.entries = kept;
        proof {
            lemma_filter_keeps_unique(all, |m: EndpointModel| m.ip != ip@);
        }
    }

    /// Removes every endpoint in `gone`: one heartbeat eviction.
    pub fn remove_many(&mut self, gone: &Vec<Endpoint>)
        requires
            old(self).wf(),
        ensures
            final(self).wf(),
            final(self)@ == old(self)@.filter(|m: EndpointModel| !models(gone@).contains(m)),
            final(self).spec_cursor() == old(self).spec_cursor(),
    {
        let ghost all = self@;
        let mut kept: Vec<Endpoint> = Vec::new();
        let mut i: usize = 0;
        proof {
            reveal(Seq::filter);
            assert(all.take(0) =~= Seq::<EndpointModel>::empty());
            assert(Seq::<EndpointModel>::empty().filter(
                |m: EndpointModel| !models(gone@).contains(m),
            ) =~= Seq::<EndpointModel>::empty());
        }
        while i < self.entries.len()
            invariant
                i <= self.entries@.len(),
                self@ == all,
                models(kept@) == all.take(i as int).filter(
                    |m: EndpointModel| !models(gone@).contains(m),
                ),
            decreases self.entries@.len() - i,
        {
            let ghost prefix = all.take(i as int);
            proof {
                reveal(Seq::filter);
                assert(all.take(i as int + 1) =~= prefix.push(all[i as int]));
                assert(prefix.push(all[i as int]).drop_last() =~= prefix);
            }
            if !contains_in(gone, &self.entries[i]) {
                let ghost ks = kept@;
                kept.push(self.entries[i].duplicate());
                proof {
                    assert(models(kept@) =~= models(ks).push(all[i as int]));
                }
            }
            i = i + 1;
        }
        proof {
            assert(all.take(i as int) =~= all);
        }
        self.entries = kept;
        proof {
            lemma_filter_keeps_unique(all, |m: EndpointModel| !models(gone@).contains(m));
        }
    }

    /// A stable, ordered copy for iteration: heartbeat and dispatch never
    /// observe torn state.
    pub fn snapshot(&self) -> (r: Vec<Endpoint>)
        ensures
            models(r@) == self@,
    {
        let mut out: Vec<Endpoint> = Vec::new();
        let mut i: usize = 0;
        while i < self.entries.len()
            invariant
                i <= self.entries@.len(),
                models(out@) == self@.take(i as int),
            decreases self.entries@.len() - i,
        {
            let ghost os = out@;
            out.push(self.entries[i].duplicate());
            proof {
                assert(models(out@) =~= models(os).push(self@[i as int]));
                assert(self@.take(i as int + 1) =~= self@.take(i as int).push(self@[i as int]));
            }
            i = i + 1;
        }
        proof {
            assert(self@.take(i as int) =~= self@);
        }
        out
    }

    /// The endpoint at the cursor; the cursor advances by one, modulo the
    /// current size. Fails exactly when the registry is empty, without
    /// advancing.
    pub fn next(&mut self) -> (r: Option<Endpoint>)
        requires
            old(self).wf(),
        ensures
            final(self).wf(),
            final(self)@ == old(self)@,
            old(self)@.len() == 0 ==> r is None && final(self).spec_cursor() == old(
                self,
            ).spec_cursor(),
            old(self)@.len() > 0 ==> (r matches Some(e) && e@ == old(self)@[old(
                self,
            ).spec_cursor() % (old(self)@.len() as int)] && final(self).spec_cursor() == (old(
                self,
            ).spec_cursor() % (old(self)@.len() as int) + 1) % (old(self)@.len() as int)),
    {
        let n = self.entries.len();
        if n == 0 {
            return None;
        }
        let i = self.cursor % n;
        let e = self.entries[i].duplicate();
        self.cursor = (i + 1) % n;
        Some(e)
    }
}

fn contains_in(es: &Vec<Endpoint>, e: &Endpoint) -> (r: bool)
    ensures
        r == models(es@).contains(e@),
{
    let mut i: usize = 0;
    while i < es.len()
        invariant
            i <= es@.len(),
            forall|k: int| 0 <= k < i ==> models(es@)[k] != e@,
        decreases es@.len() - i,
    {
        if es[i].same_as(e) {
            proof {
                assert(models(es@)[i as int] == e@);
            }
            return true;
        }
        i = i + 1;
    }
    proof {
        assert(!models(es@).contains(e@));
    }
    false
}

/// Whatever the filter keeps was in the original sequence.
proof fn lemma_filter_in_original(s: Seq<EndpointModel>, pred: spec_fn(EndpointModel) -> bool)
    ensures
        forall|x: EndpointModel| #[trigger] s.filter(pred).contains(x) ==> s.contains(x),
    decreases s.len(),
{
    reveal(Seq::filter);
    if s.len() > 0 {
        let t = s.drop_last();
        lemma_filter_in_original(t, pred);
        assert forall|x: EndpointModel| #[trigger] s.filter(pred).contains(x) implies s.contains(
            x,
        ) by {
            let fi = choose|fi: int|
                0 <= fi < s.filter(pred).len() && s.filter(pred)[fi] == x;
            if pred(s.last()) && fi == s.filter(pred).len() - 1 {
                assert(x == s.last());
                assert(s[s.len() - 1] == x);
            } else {
                assert(t.filter(pred)[fi] == x);
                assert(t.filter(pred).contains(x));
                let k = choose|k: int| 0 <= k < t.len() && t[k] == x;
                assert(s[k] == x);
            }
        }
    }
}

/// Filtering keeps entries unique.
proof fn lemma_filter_keeps_unique(s: Seq<EndpointModel>, pred: spec_fn(EndpointModel) -> bool)
    requires
        forall|i: int, j: int| 0 <= i < j < s.len() ==> s[i] != s[j],
    ensures
        forall|i: int, j: int|
            0 <= i < j < s.filter(pred).len() ==> s.filter(pred)[i] != s.filter(pred)[j],
    decreases s.len(),
{
    reveal(Seq::filter);
    if s.len() > 0 {
        let t = s.drop_last();
        assert(forall|i: int, j: int| 0 <= i < j < t.len() ==> t[i] != t[j]) by {
            assert(forall|i: int| 0 <= i < t.len() ==> t[i] == s[i]);
        }
        lemma_filter_keeps_unique(t, pred);
        lemma_filter_in_original(t, pred);
        if pred(s.last()) {
            assert(!t.filter(pred).contains(s.last())) by {
                if t.filter(pred).contains(s.last()) {
                    let k = choose|k: int| 0 <= k < t.len() && t[k] == s.last();
                    assert(s[k] == s[s.len() - 1]);
                }
            }
            assert forall|i: int, j: int|
                0 <= i < j < s.filter(pred).len() implies s.filter(pred)[i] != s.filter(
                pred,
            )[j] by {
                if j < s.filter(pred).len() - 1 {
                    assert(s.filter(pred)[i] == t.filter(pred)[i]);
                    assert(s.filter(pred)[j] == t.filter(pred)[j]);
                } else {
                    assert(s.filter(pred)[j] == s.last());
                    assert(s.filter(pred)[i] == t.filter(pred)[i]);
                    assert(t.filter(pred).contains(t.filter(pred)[i]));
                }
            }
        }
    }
}

/// One admission-plane event, as the registry sees it.
pub enum AdmissionEvent {
    /// A `connect`: the endpoint registers.
    Connect(EndpointModel),
    /// A `disconnect` from a host: every endpoint of that host leaves.
    Disconnect(Seq<char>),
    /// A heartbeat sweep: the endpoints probed unhealthy leave.
    Evict(Seq<EndpointModel>),
}

/// What one event does to the membership: exactly what `Registry::add`,
/// `Registry::remove_host` and `Registry::remove_many` ensure.
pub open spec fn apply_event(s: Seq<EndpointModel>, ev: AdmissionEvent) -> Seq<EndpointModel> {
    match ev {
        AdmissionEvent::Connect(m) => if s.contains(m) {
            s
        } else {
            s.push(m)
        },
        AdmissionEvent::Disconnect(h) => s.filter(|m: EndpointModel| m.ip != h),
        AdmissionEvent::Evict(g) => s.filter(|m: EndpointModel| !g.contains(m)),
    }
}

/// A sequence of events, applied in order.
pub open spec fn apply_events(s: Seq<EndpointModel>, evs: Seq<AdmissionEvent>) -> Seq<
    EndpointModel,
>
    decreases evs.len(),
{
    if evs.len() == 0 {
        s
    } else {
        apply_events(apply_event(s, evs[0]), evs.drop_first())
    }
}

/// Whether one event removes the endpoint `m`.
pub open spec fn removes(ev: AdmissionEvent, m: EndpointModel) -> bool {
    match ev {
        AdmissionEvent::Connect(_) => false,
        AdmissionEvent::Disconnect(h) => m.ip == h,
        AdmissionEvent::Evict(g) => g.contains(m),
    }
}

pub open spec fn removed_by_any(evs: Seq<AdmissionEvent>, m: EndpointModel) -> bool {
    exists|k: int| 0 <= k < evs.len() && removes(#[trigger] evs[k], m)
}

pub open spec fn connected_in(evs: Seq<AdmissionEvent>, m: EndpointModel) -> bool {
    exists|k: int| 0 <= k < evs.len() && #[trigger] evs[k] == AdmissionEvent::Connect(m)
}

proof fn lemma_push_contains(s: Seq<EndpointModel>, x: EndpointModel, y: EndpointModel)
    ensures
        s.push(x).contains(y) <==> (s.contains(y) || y == x),
{
    if s.push(x).contains(y) {
        let k = choose|k: int| 0 <= k < s.push(x).len() && s.push(x)[k] == y;
        if k < s.len() {
            assert(s[k] == y);
        }
    }
    if s.contains(y) {
        let k = choose|k: int| 0 <= k < s.len() && s[k] == y;
        assert(s.push(x)[k] == y);
    }
    if y == x {
        assert(s.push(x)[s.len() as int] == y);
    }
}

proof fn lemma_filter_membership(s: Seq<EndpointModel>, pred: spec_fn(EndpointModel) -> bool)
    ensures
        forall|m: EndpointModel| #[trigger] s.filter(pred).contains(m) <==> (s.contains(m)
            && pred(m)),
{
    broadcast use vstd::seq_lib::group_filter_ensures;

    lemma_filter_in_original(s, pred);
    assert forall|m: EndpointModel| #[trigger] s.filter(pred).contains(m) implies (s.contains(m)
        && pred(m)) by {
        let k = choose|k: int| 0 <= k < s.filter(pred).len() && s.filter(pred)[k] == m;
        assert(pred(s.filter(pred)[k]));
    }
    assert forall|m: EndpointModel| s.contains(m) && pred(m) implies #[trigger] s.filter(
        pred,
    ).contains(m) by {
        let k = choose|k: int| 0 <= k < s.len() && s[k] == m;
        assert(s.filter(pred).contains(s[k]));
    }
}

/// Splitting a run of events splits the fold.
proof fn lemma_apply_events_concat(
    s: Seq<EndpointModel>,
    a: Seq<AdmissionEvent>,
    b: Seq<AdmissionEvent>,
)
    ensures
        apply_events(s, a + b) == apply_events(apply_events(s, a), b),
    decreases a.len(),
{
    if a.len() == 0 {
        assert(a + b =~= b);
    } else {
        assert((a + b)[0] == a[0]);
        assert((a + b).drop_first() =~= a.drop_first() + b);
        lemma_apply_events_concat(apply_event(s, a[0]), a.drop_first(), b);
    }
}

/// After a run of connects, the membership is what was there before plus
/// what connected.
proof fn lemma_connects_membership(s: Seq<EndpointModel>, cs: Seq<AdmissionEvent>)
    requires
        forall|k: int| 0 <= k < cs.len() ==> (#[trigger] cs[k]) is Connect,
    ensures
        forall|m: EndpointModel| #[trigger] apply_events(s, cs).contains(m) <==> (s.contains(m)
            || connected_in(cs, m)),
    decreases cs.len(),
{
    if cs.len() == 0 {
        assert(forall|m: EndpointModel| !connected_in(cs, m));
    } else {
        let m0 = cs[0]->Connect_0;
        let s1 = apply_event(s, cs[0]);
        lemma_connects_membership(s1, cs.drop_first());
        assert(apply_events(s, cs) == apply_events(s1, cs.drop_first()));
        assert forall|m: EndpointModel| #[trigger] apply_events(s, cs).contains(m) <==> (
        s.contains(m) || connected_in(cs, m)) by {
            assert(apply_events(s1, cs.drop_first()).contains(m) <==> (s1.contains(m)
                || connected_in(cs.drop_first(), m)));
            lemma_push_contains(s, m0, m);
            assert(s1.contains(m) <==> (s.contains(m) || m == m0));
            // connected_in(cs, m) splits into the head event and the rest.
            if connected_in(cs, m) {
                let k = choose|k: int|
                    0 <= k < cs.len() && cs[k] == AdmissionEvent::Connect(m);
                if k > 0 {
                    assert(cs.drop_first()[k - 1] == cs[k]);
                    assert(connected_in(cs.drop_first(), m));
                }
            }
            if m == m0 {
                assert(cs[0] == AdmissionEvent::Connect(m));
                assert(connected_in(cs, m));
            }
            if connected_in(cs.drop_first(), m) {
                let k = choose|k: int|
                    0 <= k < cs.drop_first().len() && cs.drop_first()[k]
                        == AdmissionEvent::Connect(m);
                assert(cs[k + 1] == cs.drop_first()[k]);
                assert(connected_in(cs, m));
            }
        }
    }
}

/// After a run of removals, the membership is what survives them all.
proof fn lemma_removals_membership(s: Seq<EndpointModel>, rs: Seq<AdmissionEvent>)
    requires
        forall|k: int| 0 <= k < rs.len() ==> !((#[trigger] rs[k]) is Connect),
    ensures
        forall|m: EndpointModel| #[trigger] apply_events(s, rs).contains(m) <==> (s.contains(m)
            && !removed_by_any(rs, m)),
    decreases rs.len(),
{
    if rs.len() == 0 {
        assert(forall|m: EndpointModel| !removed_by_any(rs, m));
    } else {
        let s1 = apply_event(s, rs[0]);
        lemma_removals_membership(s1, rs.drop_first());
        match rs[0] {
            AdmissionEvent::Connect(_) => {
                assert(false);
            },
            AdmissionEvent::Disconnect(h) => {
                lemma_filter_membership(s, |m: EndpointModel| m.ip != h);
            },
            AdmissionEvent::Evict(g) => {
                lemma_filter_membership(s, |m: EndpointModel| !g.contains(m));
            },
        }
        assert(apply_events(s, rs) == apply_events(s1, rs.drop_first()));
        assert forall|m: EndpointModel| #[trigger] apply_events(s, rs).contains(m) <==> (
        s.contains(m) && !removed_by_any(rs, m)) by {
            assert(apply_events(s1, rs.drop_first()).contains(m) <==> (s1.contains(m)
                && !removed_by_any(rs.drop_first(), m)));
            assert(s1.contains(m) <==> (s.contains(m) && !removes(rs[0], m)));
            if removed_by_any(rs, m) {
                let k = choose|k: int| 0 <= k < rs.len() && removes(rs[k], m);
                if k > 0 {
                    assert(rs.drop_first()[k - 1] == rs[k]);
                    assert(removed_by_any(rs.drop_first(), m));
                }
            }
            if removes(rs[0], m) {
                assert(removed_by_any(rs, m));
            }
            if removed_by_any(rs.drop_first(), m) {
                let k = choose|k: int|
                    0 <= k < rs.drop_first().len() && removes(rs.drop_first()[k], m);
                assert(rs[k + 1] == rs.drop_first()[k]);
                assert(removed_by_any(rs, m));
            }
        }
    }
}

/// Over a quiescent interval — every `connect` settled before the
/// `disconnect`s and heartbeat evictions of the interval — the final
/// membership is exactly the connected endpoints minus the disconnected
/// hosts' and the evicted ones, whatever the order within each run.
pub proof fn lemma_admission_outcome(cs: Seq<AdmissionEvent>, rs: Seq<AdmissionEvent>)
    requires
        forall|k: int| 0 <= k < cs.len() ==> (#[trigger] cs[k]) is Connect,
        forall|k: int| 0 <= k < rs.len() ==> !((#[trigger] rs[k]) is Connect),
    ensures
        forall|m: EndpointModel|
            #[trigger] apply_events(Seq::empty(), cs + rs).contains(m) <==> (connected_in(cs, m)
                && !removed_by_any(rs, m)),
{
    lemma_apply_events_concat(Seq::empty(), cs, rs);
    lemma_connects_membership(Seq::empty(), cs);
    lemma_removals_membership(apply_events(Seq::empty(), cs), rs);
}

/// The cursor as it stands after `j` picks from a registry of size `n`
/// whose cursor began at `c`: each pick reads the entry at this index, then
/// advances it by one modulo `n`, exactly as `Registry::next` does.
pub open spec fn rr_cursor(c: int, n: int, j: nat) -> int
    decreases j,
{
    if j == 0 {
        c % n
    } else {
        (rr_cursor(c, n, (j - 1) as nat) + 1) % n
    }
}

/// Round-robin fairness: on a registry that does not change, `j` successive
/// picks land on the entries `(c + 0) mod n, (c + 1) mod n, ...` — every
/// endpoint is visited once before any is visited again.
pub proof fn lemma_round_robin(c: int, n: int, j: nat)
    requires
        n > 0,
        c >= 0,
    ensures
        rr_cursor(c, n, j) == (c + j) % n,
    decreases j,
{
    if j == 0 {
    } else {
        lemma_round_robin(c, n, (j - 1) as nat);
        lemma_add_mod_noop_right(1, c + j - 1, n);
        assert((rr_cursor(c, n, (j - 1) as nat) + 1) % n == (1 + (c + j - 1) % n) % n);
        assert((1 + (c + j - 1) % n) % n == (1 + (c + j - 1)) % n);
    }
}

/// Round-robin fairness over a whole run: on a registry `r` held fixed
/// across `k` successive picks — each pick one `Registry::next`, which is
/// what each `Producer::produce` call performs, reading the entry at
/// `rr_cursor` and advancing the cursor by exactly one modulo `r.len()` —
/// the `j`-th pick returns `r[(c + j) % r.len()]` for the starting cursor
/// `c`: the targets walk the registry in order, and every endpoint is
/// visited once before any is visited twice.
pub proof fn lemma_round_robin_targets(r: Seq<EndpointModel>, c: int, k: nat)
    requires
        r.len() > 0,
        c >= 0,
    ensures
        forall|j: int|
            0 <= j < k ==> r[#[trigger] rr_cursor(c, r.len() as int, j as nat)] == r[(c + j) % (
            r.len() as int)],
{
    assert forall|j: int|
        0 <= j < k implies r[#[trigger] rr_cursor(c, r.len() as int, j as nat)] == r[(c + j) % (
    r.len() as int)] by {
        lemma_round_robin(c, r.len() as int, j as nat);
    }
}

} // verus!
