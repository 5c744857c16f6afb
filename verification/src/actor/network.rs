//! Envelopes, and the network of messages in flight between actors.

use crate::actor::Id;
use crate::checker::rewrite::Rewrite;
use crate::checker::rewrite_plan::{Mapping, RewritePlan};
use crate::semantics::{clone_exact, exact_clone, exact_eq};
use crate::util::digest::{feed, hash_of, sort_numbers, sorted};
use core::hash::Hash;
use vstd::prelude::*;
use vstd::std_specs::cmp::PartialEqSpecImpl;

verus! {

/// Indicates the source and destination for a message.
#[derive(Copy, Debug, Eq, Hash, Ord, PartialEq, PartialOrd)]
pub struct Envelope<Msg> {
    pub src: Id,
    pub dst: Id,
    pub msg: Msg,
}

impl<Msg: Clone> Clone for Envelope<Msg> {
    /// Clones the envelope and its message.
    fn clone(&self) -> (r: Self)
        ensures
            r.src == self.src,
            r.dst == self.dst,
            cloned(self.msg, r.msg),
            exact_clone::<Msg>() ==> r == *self,
    {
        let msg = self.msg.clone();
        proof {
            assert(vstd::pervasive::strictly_cloned(self.msg, msg));
        }
        Envelope { src: self.src, dst: self.dst, msg }
    }
}

impl<'a, Msg> Envelope<&'a Msg> {
    /// Converts an [`Envelope`] with a message reference to one that owns the message.
    pub fn to_cloned_msg(&self) -> (r: Envelope<Msg>) where Msg: Clone
        ensures
            r.src == self.src,
            r.dst == self.dst,
            cloned(*self.msg, r.msg),
    {
        Envelope { src: self.src, dst: self.dst, msg: self.msg.clone() }
    }
}

/// The envelope that an envelope holding a message reference stands for.
pub open spec fn owned<Msg>(e: Envelope<&Msg>) -> Envelope<Msg> {
    Envelope { src: e.src, dst: e.dst, msg: *e.msg }
}

/// The flow (directed pair of actors) that an envelope travels along, by the actors' numbers.
pub open spec fn flow_key<Msg>(e: Envelope<Msg>) -> (u64, u64) {
    (e.src@, e.dst@)
}

/// The order in which the flows of an ordered network are visited: by source, then by
/// destination.
pub open spec fn key_lt(a: (u64, u64), b: (u64, u64)) -> bool {
    a.0 < b.0 || (a.0 == b.0 && a.1 < b.1)
}

/// Whether an envelope travels along the flow with key `k`.
pub open spec fn on_flow<Msg>(k: (u64, u64)) -> spec_fn(Envelope<Msg>) -> bool {
    |e: Envelope<Msg>| flow_key(e) == k
}

/// The envelopes of `s` that travel along the flow with key `k`, in order.
pub open spec fn flow_of<Msg>(s: Seq<Envelope<Msg>>, k: (u64, u64)) -> Seq<Envelope<Msg>> {
    s.filter(on_flow(k))
}

/// The distinct envelopes of `s`, each where it first occurs.
pub open spec fn distinct<Msg>(s: Seq<Envelope<Msg>>) -> Seq<Envelope<Msg>>
    decreases s.len(),
{
    if s.len() == 0 {
        s
    } else {
        let d = distinct(s.drop_last());
        if d.contains(s.last()) {
            d
        } else {
            d.push(s.last())
        }
    }
}

/// `r` is `s` without the first occurrence of `e`.
pub open spec fn removed_first<Msg>(s: Seq<Envelope<Msg>>, e: Envelope<Msg>, r: Seq<
    Envelope<Msg>,
>) -> bool {
    exists|i: int|
        0 <= i < s.len() && s[i] == e && (forall|j: int| 0 <= j < i ==> s[j] != e) && r
            == s.remove(i)
}

/// `r` holds the envelopes of `s` flow by flow, the flows in key order, each flow in the order of
/// `s`.
pub open spec fn grouped_by_flow<Msg>(s: Seq<Envelope<Msg>>, r: Seq<Envelope<Msg>>) -> bool {
    &&& forall|i: int, j: int|
        0 <= i < j < r.len() ==> !key_lt(flow_key(#[trigger] r[j]), flow_key(#[trigger] r[i]))
    &&& forall|k: (u64, u64)| #[trigger] flow_of(r, k) == flow_of(s, k)
}

/// The envelopes that envelopes holding message references stand for.
pub open spec fn owned_all<Msg>(s: Seq<Envelope<&Msg>>) -> Seq<Envelope<Msg>> {
    s.map_values(|e: Envelope<&Msg>| owned(e))
}

/// `r` holds the first envelope of each flow of `s`, the flows in key order.
pub open spec fn heads_of_flows<Msg>(s: Seq<Envelope<Msg>>, r: Seq<Envelope<Msg>>) -> bool {
    &&& forall|i: int, j: int|
        0 <= i < j < r.len() ==> key_lt(flow_key(#[trigger] r[i]), flow_key(#[trigger] r[j]))
    &&& forall|i: int|
        0 <= i < r.len() ==> flow_of(s, flow_key(#[trigger] r[i])).len() > 0 && r[i] == flow_of(
            s,
            flow_key(r[i]),
        )[0]
    &&& forall|k: (u64, u64)| has_flow(s, k) ==> exists|i: int| 0 <= i < r.len() && #[trigger] flow_key(r[i]) == k
}

/// The kinds of network.
#[derive(Clone, Copy, Debug, PartialEq, Eq, Hash, Structural)]
pub enum NetworkKind {
    /// Messages have no ordering (racing one another), and can be redelivered.
    UnorderedDuplicating,
    /// Messages have no ordering (racing one another), and will not be redelivered.
    UnorderedNonDuplicating,
    /// Directed message flows between pairs of actors are ordered.
    Ordered,
}

/// Every envelope but `e`.
pub open spec fn other_than<Msg>(e: Envelope<Msg>) -> spec_fn(Envelope<Msg>) -> bool {
    |x: Envelope<Msg>| x != e
}

/// Represents a network of messages.
///
/// The network keeps the envelopes in flight in the order in which they were sent. An unordered
/// duplicating network holds each envelope at most once (a set); an unordered non-duplicating
/// network holds as many copies as were sent and not yet delivered (a multiset); an ordered
/// network delivers the messages of each directed flow between two actors in the order sent.
#[derive(Debug)]
pub struct Network<Msg: Eq + Hash> {
    kind: NetworkKind,
    envelopes: Vec<Envelope<Msg>>,
}

/// Whether two envelopes are equal, comparing the messages with `==`.
fn same_envelope<Msg: Eq>(a: &Envelope<Msg>, b: &Envelope<Msg>) -> (r: bool)
    ensures
        exact_eq::<Msg>() ==> r == (*a == *b),
{
    a.src == b.src && a.dst == b.dst && a.msg == b.msg
}

/// The position of the first occurrence of `e` in `v`.
fn first_position<Msg: Eq>(v: &Vec<Envelope<Msg>>, e: &Envelope<Msg>) -> (r: Option<usize>)
    ensures
        r matches Some(i) ==> i < v@.len(),
        exact_eq::<Msg>() ==> match r {
            Some(i) => v@[i as int] == *e && forall|j: int| 0 <= j < i ==> v@[j] != *e,
            None => !v@.contains(*e),
        },
{
    let mut i: usize = 0;
    while i < v.len()
        invariant
            i <= v@.len(),
            exact_eq::<Msg>() ==> forall|j: int| 0 <= j < i ==> v@[j] != *e,
        decreases v@.len() - i,
    {
        if same_envelope(&v[i], e) {
            return Some(i);
        }
        i = i + 1;
    }
    None
}

/// `d` are the distinct deliverable envelopes of `n`: for a duplicating network each envelope,
/// for a non-duplicating network each distinct envelope where it first occurs, for an ordered
/// network the first envelope of each flow (the flows in key order).
pub open spec fn deliverable<Msg: Eq + Hash>(n: &Network<Msg>, d: Seq<Envelope<Msg>>) -> bool {
    &&& n.kind_of() == NetworkKind::UnorderedDuplicating ==> d == n.sent()
    &&& exact_eq::<Msg>() && n.kind_of() == NetworkKind::UnorderedNonDuplicating ==> d == distinct(n.sent())
    &&& n.kind_of() == NetworkKind::Ordered ==> heads_of_flows(n.sent(), d)
}

impl<Msg: Eq + Hash> Network<Msg> {
    #[verifier::type_invariant]
    spec fn sets_hold_no_copies(self) -> bool {
        exact_eq::<Msg>() && self.kind == NetworkKind::UnorderedDuplicating
            ==> self.envelopes@.no_duplicates()
    }

    /// The kind of the network.
    pub closed spec fn kind_of(&self) -> NetworkKind {
        self.kind
    }

    /// The envelopes in flight, in the order in which they were sent.
    pub closed spec fn sent(&self) -> Seq<Envelope<Msg>> {
        self.envelopes@
    }

    /// The messages in flight from `src` to `dst`, in the order in which they were sent.
    pub open spec fn flow(&self, src: Id, dst: Id) -> Seq<Msg> {
        flow_of(self.sent(), (src@, dst@)).map_values(|e: Envelope<Msg>| e.msg)
    }

    /// How many copies of `e` are in flight.
    pub open spec fn count(&self, e: Envelope<Msg>) -> nat {
        self.sent().to_multiset().count(e)
    }

    /// The kind of the network.
    pub fn kind(&self) -> (r: NetworkKind)
        ensures
            r == self.kind_of(),
    {
        self.kind
    }

    /// An empty network of the given kind.
    pub(crate) fn empty(kind: NetworkKind) -> (r: Self)
        ensures
            r.kind_of() == kind,
            r.sent() == Seq::<Envelope<Msg>>::empty(),
    {
        Network { kind, envelopes: Vec::new() }
    }

    /// A network of the given kind to which `envelopes` were sent in order.
    fn with_sent(kind: NetworkKind, envelopes: Vec<Envelope<Msg>>) -> (r: Self)
        ensures
            r.kind_of() == kind,
            kind != NetworkKind::UnorderedDuplicating ==> r.sent() == envelopes@,
            exact_eq::<Msg>() && kind == NetworkKind::UnorderedDuplicating ==> r.sent()
                == distinct(envelopes@),
    {
        let mut this = Self::empty(kind);
        let ghost all = envelopes@;
        let mut rest = envelopes;
        let mut rev: Vec<Envelope<Msg>> = Vec::new();
        while rest.len() > 0
            invariant
                rev@.len() + rest@.len() == all.len(),
                forall|j: int| 0 <= j < rest@.len() ==> rest@[j] == all[j],
                forall|j: int|
                    0 <= j < rev@.len() ==> #[trigger] rev@[j] == all[all.len() - 1 - j],
            decreases rest@.len(),
        {
            let x = rest.pop().unwrap();
            rev.push(x);
        }
        let mut i: usize = 0;
        let n = rev.len();
        while rev.len() > 0
            invariant
                n == all.len(),
                i + rev@.len() == n,
                forall|j: int|
                    0 <= j < rev@.len() ==> #[trigger] rev@[j] == all[all.len() - 1 - j],
                this.kind_of() == kind,
                kind != NetworkKind::UnorderedDuplicating ==> this.sent() == all.take(i as int),
                exact_eq::<Msg>() && kind == NetworkKind::UnorderedDuplicating ==> this.sent()
                    == distinct(all.take(i as int)),
            decreases rev@.len(),
        {
            let x = rev.pop().unwrap();
            proof {
                assert(x == all[i as int]);
                assert(all.take(i + 1) == all.take(i as int).push(x));
                assert(all.take(i + 1).drop_last() == all.take(i as int));
            }
            this.send(x);
            i = i + 1;
        }
        proof {
            assert(all.take(n as int) == all);
        }
        this
    }

    /// Indicates that directed message flows between pairs of actors are ordered. Does not
    /// indicate any ordering across different flows. Each direction for a pair of actors is a
    /// different flow.
    pub fn new_ordered(envelopes: Vec<Envelope<Msg>>) -> (r: Self)
        ensures
            r.kind_of() == NetworkKind::Ordered,
            r.sent() == envelopes@,
    {
        Self::with_sent(NetworkKind::Ordered, envelopes)
    }

    /// Indicates that messages have no ordering (racing one another), and can be redelivered.
    pub fn new_unordered_duplicating(envelopes: Vec<Envelope<Msg>>) -> (r: Self)
        ensures
            r.kind_of() == NetworkKind::UnorderedDuplicating,
            exact_eq::<Msg>() ==> r.sent() == distinct(envelopes@),
    {
        Self::with_sent(NetworkKind::UnorderedDuplicating, envelopes)
    }

    /// Indicates that messages have no ordering (racing one another), and will not be
    /// redelivered.
    pub fn new_unordered_nonduplicating(envelopes: Vec<Envelope<Msg>>) -> (r: Self)
        ensures
            r.kind_of() == NetworkKind::UnorderedNonDuplicating,
            r.sent() == envelopes@,
    {
        Self::with_sent(NetworkKind::UnorderedNonDuplicating, envelopes)
    }

    /// Returns the number of messages in the network.
    pub fn len(&self) -> (r: usize)
        ensures
            r == self.sent().len(),
    {
        self.envelopes.len()
    }

    /// Returns all envelopes in the network: for an unordered network in the order sent, for an
    /// ordered network flow by flow (the flows in key order, each in the order sent).
    pub fn iter_all(&self) -> (r: Vec<Envelope<&Msg>>)
        ensures
            r@.len() == self.sent().len(),
            self.kind_of() != NetworkKind::Ordered ==> owned_all(r@) == self.sent(),
            self.kind_of() == NetworkKind::Ordered ==> grouped_by_flow(self.sent(), owned_all(r@)),
    {
        let v = &self.envelopes;
        let mut out: Vec<Envelope<&Msg>> = Vec::new();
        let ghost mut g: Seq<Envelope<Msg>> = Seq::empty();
        if self.kind != NetworkKind::Ordered {
            let mut i: usize = 0;
            while i < v.len()
                invariant
                    i <= v@.len(),
                    owned_all(out@) == v@.take(i as int),
                decreases v@.len() - i,
            {
                let ghost before = out@;
                out.push(Envelope { src: v[i].src, dst: v[i].dst, msg: &v[i].msg });
                proof {
                    assert(owned_all(out@) == owned_all(before).push(v@[i as int]));
                    assert(v@.take(i + 1) == v@.take(i as int).push(v@[i as int]));
                }
                i = i + 1;
            }
            proof {
                assert(v@.take(v@.len() as int) == v@);
            }
            return out;
        }
        let ks = flow_keys(v);
        let mut a: usize = 0;
        while a < ks.len()
            invariant
                a <= ks@.len(),
                increasing(ks@),
                owned_all(out@) == g,
                g == concat_flows(v@, ks@.take(a as int)),
                forall|x: int, y: int|
                    0 <= x < y < g.len() ==> !key_lt(flow_key(#[trigger] g[y]), flow_key(#[trigger] g[x])),
                a > 0 ==> forall|x: int| 0 <= x < g.len() ==> !key_lt(ks@[a - 1], flow_key(#[trigger] g[x])),
            decreases ks@.len() - a,
        {
            let k = ks[a];
            let ghost start = g;
            let mut i: usize = 0;
            while i < v.len()
                invariant
                    a < ks@.len(),
                    k == ks@[a as int],
                    increasing(ks@),
                    i <= v@.len(),
                    owned_all(out@) == g,
                    g == start + flow_of(v@.take(i as int), k),
                    start == concat_flows(v@, ks@.take(a as int)),
                    forall|x: int, y: int|
                        0 <= x < y < g.len() ==> !key_lt(flow_key(#[trigger] g[y]), flow_key(#[trigger] g[x])),
                    forall|x: int| 0 <= x < g.len() ==> !key_lt(k, flow_key(#[trigger] g[x])),
                decreases v@.len() - i,
            {
                proof {
                    lemma_flow_push(v@.take(i as int), v@[i as int], k);
                    assert(v@.take(i + 1) == v@.take(i as int).push(v@[i as int]));
                }
                if key_eq(key_of(&v[i]), k) {
                    let ghost before = out@;
                    out.push(Envelope { src: v[i].src, dst: v[i].dst, msg: &v[i].msg });
                    proof {
                        assert(owned_all(out@) == owned_all(before).push(v@[i as int]));
                        g = g.push(v@[i as int]);
                    }
                }
                i = i + 1;
            }
            proof {
                assert(v@.take(v@.len() as int) == v@);
                assert(ks@.take(a + 1).drop_last() == ks@.take(a as int));
                assert(ks@.take(a + 1).last() == k);
                if a > 0 {
                    assert(key_lt(ks@[a - 1], ks@[a as int]));
                }
            }
            a = a + 1;
        }
        proof {
            assert(ks@.take(ks@.len() as int) == ks@);
            assert forall|k: (u64, u64)| #[trigger] flow_of(g, k) == flow_of(v@, k) by {
                lemma_flow_of_concat(v@, ks@, k);
                if !ks@.contains(k) {
                    lemma_flow_absent(v@, k);
                }
            }
            assert forall|i: int| 0 <= i < v@.len() implies ks@.contains(flow_key(#[trigger] v@[i])) by {
                assert(has_flow(v@, flow_key(v@[i])));
            }
            lemma_concat_len(v@, ks@);
        }
        out
    }

    /// Returns the distinct deliverable envelopes in the network: for a duplicating network each
    /// envelope, for a non-duplicating network each distinct envelope where it first occurs, for
    /// an ordered network the first envelope of each flow (the flows in key order).
    pub fn iter_deliverable(&self) -> (r: Vec<Envelope<&Msg>>)
        ensures
            deliverable(self, owned_all(r@)),
    {
        let v = &self.envelopes;
        if self.kind == NetworkKind::UnorderedDuplicating {
            return self.iter_all();
        }
        let mut out: Vec<Envelope<&Msg>> = Vec::new();
        if self.kind == NetworkKind::UnorderedNonDuplicating {
            let mut i: usize = 0;
            while i < v.len()
                invariant
                    i <= v@.len(),
                    exact_eq::<Msg>() ==> owned_all(out@) == distinct(v@.take(i as int)),
                decreases v@.len() - i,
            {
                let mut j: usize = 0;
                let mut seen = false;
                while j < out.len()
                    invariant
                        j <= out@.len(),
                        i < v@.len(),
                        exact_eq::<Msg>() ==> (seen <==> exists|x: int|
                            0 <= x < j && #[trigger] owned(out@[x]) == v@[i as int]),
                    decreases out@.len() - j,
                {
                    let same = out[j].src == v[i].src && out[j].dst == v[i].dst && *out[j].msg
                        == v[i].msg;
                    proof {
                        if exact_eq::<Msg>() {
                            assert(same == (owned(out@[j as int]) == v@[i as int]));
                        }
                    }
                    if same {
                        seen = true;
                    }
                    j = j + 1;
                }
                let ghost before = out@;
                proof {
                    assert(v@.take(i + 1).drop_last() == v@.take(i as int));
                    assert(v@.take(i + 1).last() == v@[i as int]);
                    if exact_eq::<Msg>() {
                        let d = owned_all(before);
                        assert(seen == d.contains(v@[i as int])) by {
                            if seen {
                                let x = choose|x: int| 0 <= x < j && #[trigger] owned(out@[x]) == v@[i as int];
                                assert(d[x] == v@[i as int]);
                            }
                            if d.contains(v@[i as int]) {
                                let x = choose|x: int| 0 <= x < d.len() && d[x] == v@[i as int];
                                assert(owned(out@[x]) == v@[i as int]);
                            }
                        }
                    }
                }
                if !seen {
                    out.push(Envelope { src: v[i].src, dst: v[i].dst, msg: &v[i].msg });
                    proof {
                        assert(owned_all(out@) == owned_all(before).push(v@[i as int]));
                    }
                }
                i = i + 1;
            }
            proof {
                assert(v@.take(v@.len() as int) == v@);
            }
            return out;
        }
        let ks = flow_keys(v);
        let mut a: usize = 0;
        while a < ks.len()
            invariant
                a <= ks@.len(),
                increasing(ks@),
                forall|k: (u64, u64)| ks@.contains(k) <==> has_flow(v@, k),
                out@.len() == a,
                forall|b: int|
                    0 <= b < a ==> flow_key(#[trigger] owned_all(out@)[b]) == ks@[b]
                        && flow_of(v@, ks@[b]).len() > 0 && owned_all(out@)[b] == flow_of(
                        v@,
                        ks@[b],
                    )[0],
            decreases ks@.len() - a,
        {
            let k = ks[a];
            proof {
                assert(ks@.contains(k));
            }
            let ghost w = choose|w: int| 0 <= w < v@.len() && #[trigger] flow_key(v@[w]) == k;
            let mut i: usize = 0;
            while i < v.len() && !key_eq(key_of(&v[i]), k)
                invariant
                    i <= v@.len(),
                    0 <= w < v@.len(),
                    flow_key(v@[w]) == k,
                    forall|j: int| 0 <= j < i ==> flow_key(#[trigger] v@[j]) != k,
                decreases v@.len() - i,
            {
                i = i + 1;
            }
            proof {
                assert(i <= w);
                lemma_flow_first(v@, i as int, k);
            }
            let ghost before = out@;
            out.push(Envelope { src: v[i].src, dst: v[i].dst, msg: &v[i].msg });
            proof {
                assert(owned_all(out@) == owned_all(before).push(v@[i as int]));
            }
            a = a + 1;
        }
        proof {
            let g = owned_all(out@);
            assert forall|k: (u64, u64)| has_flow(v@, k) implies exists|i: int| 0 <= i < g.len() && #[trigger] flow_key(g[i]) == k by {
                assert(ks@.contains(k));
                let b = choose|b: int| 0 <= b < ks@.len() && ks@[b] == k;
                assert(flow_key(g[b]) == k);
            }
        }
        out
    }

    /// Sends a message: a duplicating network holds it once, the others add a copy.
    pub fn send(&mut self, envelope: Envelope<Msg>)
        ensures
            final(self).kind_of() == old(self).kind_of(),
            old(self).kind_of() != NetworkKind::UnorderedDuplicating ==> final(self).sent()
                == old(self).sent().push(envelope),
            exact_eq::<Msg>() && old(self).kind_of() == NetworkKind::UnorderedDuplicating
                ==> final(self).sent() == if old(self).sent().contains(envelope) {
                old(self).sent()
            } else {
                old(self).sent().push(envelope)
            },
    {
        proof {
            use_type_invariant(&*self);
        }
        let ghost before = self.envelopes@;
        if self.kind == NetworkKind::UnorderedDuplicating {
            if first_position(&self.envelopes, &envelope).is_some() {
                return ;
            }
        }
        let mut v = Vec::new();
        std::mem::swap(&mut v, &mut self.envelopes);
        v.push(envelope);
        proof {
            if exact_eq::<Msg>() && self.kind == NetworkKind::UnorderedDuplicating {
                assert forall|a: int, b: int| 0 <= a < b < v@.len() implies v@[a] != v@[b] by {
                    if b == v@.len() - 1 {
                        assert(before.contains(before[a]));
                    }
                }
            }
        }
        self.envelopes = v;
    }

    /// Removes the first copy of `envelope`, if there is one.
    fn remove_first(&mut self, envelope: &Envelope<Msg>)
        ensures
            final(self).kind_of() == old(self).kind_of(),
            exact_eq::<Msg>() ==> if old(self).sent().contains(*envelope) {
                removed_first(old(self).sent(), *envelope, final(self).sent())
            } else {
                final(self).sent() == old(self).sent()
            },
    {
        proof {
            use_type_invariant(&*self);
        }
        let ghost before = self.envelopes@;
        match first_position(&self.envelopes, envelope) {
            Some(i) => {
                let mut v = Vec::new();
                std::mem::swap(&mut v, &mut self.envelopes);
                v.remove(i);
                proof {
                    assert(v@ == before.remove(i as int));
                    if exact_eq::<Msg>() && self.kind == NetworkKind::UnorderedDuplicating {
                        assert forall|a: int, b: int|
                            0 <= a < b < v@.len() implies v@[a] != v@[b] by {
                            let a2 = if a < i { a } else { a + 1 };
                            let b2 = if b < i { b } else { b + 1 };
                            assert(v@[a] == before[a2]);
                            assert(v@[b] == before[b2]);
                        }
                    }
                    if exact_eq::<Msg>() {
                        assert(before.contains(*envelope));
                        assert(removed_first(before, *envelope, v@));
                    }
                }
                self.envelopes = v;
            },
            None => {},
        }
    }

    /// Delivers a message: a duplicating network can deliver it again, the others give up one
    /// copy (for an ordered network, the first in its flow). Delivering a message that is not in
    /// flight leaves the network as it is.
    pub(crate) fn on_deliver(&mut self, envelope: Envelope<Msg>)
        ensures
            final(self).kind_of() == old(self).kind_of(),
            old(self).kind_of() == NetworkKind::UnorderedDuplicating ==> final(self).sent()
                == old(self).sent(),
            exact_eq::<Msg>() && old(self).kind_of() != NetworkKind::UnorderedDuplicating
                ==> if old(self).sent().contains(envelope) {
                removed_first(old(self).sent(), envelope, final(self).sent())
            } else {
                final(self).sent() == old(self).sent()
            },
    {
        if self.kind != NetworkKind::UnorderedDuplicating {
            self.remove_first(&envelope);
        }
    }

    /// Drops a message: a duplicating network no longer holds it, the others give up one copy
    /// (for an ordered network, the first in its flow). Dropping a message that is not in flight
    /// leaves the network as it is.
    pub(crate) fn on_drop(&mut self, envelope: Envelope<Msg>)
        ensures
            final(self).kind_of() == old(self).kind_of(),
            exact_eq::<Msg>() && old(self).kind_of() == NetworkKind::UnorderedDuplicating
                ==> final(self).sent() == old(self).sent().filter(other_than(envelope)),
            exact_eq::<Msg>() && old(self).kind_of() != NetworkKind::UnorderedDuplicating
                ==> if old(self).sent().contains(envelope) {
                removed_first(old(self).sent(), envelope, final(self).sent())
            } else {
                final(self).sent() == old(self).sent()
            },
    {
        proof {
            use_type_invariant(&*self);
        }
        let ghost before = self.envelopes@;
        self.remove_first(&envelope);
        proof {
            if exact_eq::<Msg>() && self.kind == NetworkKind::UnorderedDuplicating {
                lemma_remove_only_copy(before, envelope, self.envelopes@);
            }
        }
    }
}


/// The flow key of an envelope, computed.
fn key_of<Msg>(e: &Envelope<Msg>) -> (r: (u64, u64))
    ensures
        r == flow_key(*e),
{
    (e.src.value(), e.dst.value())
}

/// The flows of `s` whose keys are listed in `ks`, one after the other.
pub open spec fn concat_flows<Msg>(s: Seq<Envelope<Msg>>, ks: Seq<(u64, u64)>) -> Seq<
    Envelope<Msg>,
>
    decreases ks.len(),
{
    if ks.len() == 0 {
        Seq::empty()
    } else {
        concat_flows(s, ks.drop_last()) + flow_of(s, ks.last())
    }
}

/// Appending an envelope to `s` lengthens the flows listed in `ks` by one if `ks` lists its flow
/// (once, the keys being increasing), and by none otherwise.
proof fn lemma_concat_push<Msg>(s: Seq<Envelope<Msg>>, x: Envelope<Msg>, ks: Seq<(u64, u64)>)
    requires
        increasing(ks),
    ensures
        concat_flows(s.push(x), ks).len() == concat_flows(s, ks).len() + if ks.contains(flow_key(x)) {
            1int
        } else {
            0int
        },
    decreases ks.len(),
{
    if ks.len() > 0 {
        let ks2 = ks.drop_last();
        assert(increasing(ks2)) by {
            assert forall|a: int, b: int| 0 <= a < b < ks2.len() implies key_lt(#[trigger] ks2[a], #[trigger] ks2[b]) by {
                assert(ks2[a] == ks[a] && ks2[b] == ks[b]);
            }
        }
        lemma_concat_push(s, x, ks2);
        lemma_flow_push(s, x, ks.last());
        if ks2.contains(flow_key(x)) {
            let a = choose|a: int| 0 <= a < ks2.len() && ks2[a] == flow_key(x);
            assert(key_lt(ks[a], ks[ks.len() - 1]));
            assert(ks.contains(flow_key(x)));
        } else if flow_key(x) == ks.last() {
            assert(ks[ks.len() - 1] == flow_key(x));
        } else {
            assert forall|a: int| 0 <= a < ks.len() implies ks[a] != flow_key(x) by {
                if a < ks.len() - 1 {
                    assert(ks2[a] == ks[a]);
                }
            }
        }
    }
}

/// The flows of `s` listed once each in `ks` hold as many envelopes as `s` does, when `ks`
/// lists the flow of each envelope of `s`.
proof fn lemma_concat_len<Msg>(s: Seq<Envelope<Msg>>, ks: Seq<(u64, u64)>)
    requires
        increasing(ks),
        forall|i: int| 0 <= i < s.len() ==> ks.contains(flow_key(#[trigger] s[i])),
    ensures
        concat_flows(s, ks).len() == s.len(),
    decreases s.len(),
{
    if s.len() == 0 {
        lemma_concat_empty::<Msg>(ks);
        assert(s =~= Seq::<Envelope<Msg>>::empty());
    } else {
        let s2 = s.drop_last();
        assert(s2.push(s.last()) == s);
        assert forall|i: int| 0 <= i < s2.len() implies ks.contains(flow_key(#[trigger] s2[i])) by {
            assert(s2[i] == s[i]);
        }
        lemma_concat_len(s2, ks);
        assert(ks.contains(flow_key(s[s.len() - 1])));
        lemma_concat_push(s2, s.last(), ks);
    }
}

/// No flow of the empty sequence holds an envelope.
proof fn lemma_concat_empty<Msg>(ks: Seq<(u64, u64)>)
    ensures
        concat_flows(Seq::<Envelope<Msg>>::empty(), ks).len() == 0,
    decreases ks.len(),
{
    if ks.len() > 0 {
        lemma_concat_empty::<Msg>(ks.drop_last());
        reveal(Seq::filter);
        assert(flow_of(Seq::<Envelope<Msg>>::empty(), ks.last()) =~= Seq::<Envelope<Msg>>::empty());
    }
}

/// Keys listed in strictly increasing order.
pub open spec fn increasing(ks: Seq<(u64, u64)>) -> bool {
    forall|a: int, b: int| 0 <= a < b < ks.len() ==> key_lt(#[trigger] ks[a], #[trigger] ks[b])
}

/// Whether some envelope of `s` travels along the flow with key `k`.
pub open spec fn has_flow<Msg>(s: Seq<Envelope<Msg>>, k: (u64, u64)) -> bool {
    exists|i: int| 0 <= i < s.len() && #[trigger] flow_key(s[i]) == k
}

/// Appending an envelope extends the flow it travels along, and no other.
proof fn lemma_flow_push<Msg>(s: Seq<Envelope<Msg>>, x: Envelope<Msg>, k: (u64, u64))
    ensures
        flow_of(s.push(x), k) == if flow_key(x) == k {
            flow_of(s, k).push(x)
        } else {
            flow_of(s, k)
        },
{
    reveal(Seq::filter);
    assert(s.push(x).drop_last() == s);
    assert(s.push(x).last() == x);
}

/// The flow of a sequence with no envelope on it is empty.
proof fn lemma_flow_absent<Msg>(s: Seq<Envelope<Msg>>, k: (u64, u64))
    requires
        !has_flow(s, k),
    ensures
        flow_of(s, k) == Seq::<Envelope<Msg>>::empty(),
    decreases s.len(),
{
    reveal(Seq::filter);
    if s.len() > 0 {
        assert(!has_flow(s.drop_last(), k)) by {
            if has_flow(s.drop_last(), k) {
                let i = choose|i: int| 0 <= i < s.drop_last().len() && #[trigger] flow_key(s.drop_last()[i]) == k;
                assert(flow_key(s[i]) == k);
            }
        }
        lemma_flow_absent(s.drop_last(), k);
        assert(flow_key(s[s.len() - 1]) != k);
    }
}

/// The first envelope of a flow is the first envelope of the sequence that travels along it.
proof fn lemma_flow_first<Msg>(s: Seq<Envelope<Msg>>, i: int, k: (u64, u64))
    requires
        0 <= i < s.len(),
        flow_key(s[i]) == k,
        forall|j: int| 0 <= j < i ==> flow_key(s[j]) != k,
    ensures
        flow_of(s, k).len() > 0,
        flow_of(s, k)[0] == s[i],
{
    let pre = s.take(i);
    assert(!has_flow(pre, k)) by {
        if has_flow(pre, k) {
            let j = choose|j: int| 0 <= j < pre.len() && #[trigger] flow_key(pre[j]) == k;
            assert(flow_key(s[j]) == k);
        }
    }
    lemma_flow_absent(pre, k);
    lemma_flow_push(pre, s[i], k);
    assert(s.take(i + 1) == pre.push(s[i]));
    assert(s == s.take(i + 1) + s.skip(i + 1));
    Seq::filter_distributes_over_add(s.take(i + 1), s.skip(i + 1), on_flow(k));
}

/// Filtering a flow by another key keeps it whole or leaves nothing.
proof fn lemma_flow_of_flow<Msg>(s: Seq<Envelope<Msg>>, k1: (u64, u64), k2: (u64, u64))
    ensures
        flow_of(flow_of(s, k1), k2) == if k1 == k2 {
            flow_of(s, k1)
        } else {
            Seq::<Envelope<Msg>>::empty()
        },
    decreases s.len(),
{
    if s.len() > 0 {
        lemma_flow_of_flow(s.drop_last(), k1, k2);
        assert(s.drop_last().push(s.last()) == s);
        lemma_flow_push(s.drop_last(), s.last(), k1);
        if flow_key(s.last()) == k1 {
            lemma_flow_push(flow_of(s.drop_last(), k1), s.last(), k2);
        }
    } else {
        reveal(Seq::filter);
    }
}

/// The flow `k` of the listed flows is flow `k` of `s` when `k` is listed (once), and empty
/// otherwise.
proof fn lemma_flow_of_concat<Msg>(s: Seq<Envelope<Msg>>, ks: Seq<(u64, u64)>, k: (u64, u64))
    requires
        increasing(ks),
    ensures
        flow_of(concat_flows(s, ks), k) == if ks.contains(k) {
            flow_of(s, k)
        } else {
            Seq::<Envelope<Msg>>::empty()
        },
    decreases ks.len(),
{
    if ks.len() == 0 {
        reveal(Seq::filter);
    } else {
        let front = ks.drop_last();
        assert(increasing(front));
        lemma_flow_of_concat(s, front, k);
        Seq::filter_distributes_over_add(concat_flows(s, front), flow_of(s, ks.last()), on_flow(k));
        lemma_flow_of_flow(s, ks.last(), k);
        if ks.last() == k {
            assert(!front.contains(k)) by {
                if front.contains(k) {
                    let a = choose|a: int| 0 <= a < front.len() && front[a] == k;
                    assert(key_lt(ks[a], ks[ks.len() - 1]));
                }
            }
            assert(ks.contains(k)) by {
                assert(ks[ks.len() - 1] == k);
            }
        } else {
            assert(ks.contains(k) == front.contains(k)) by {
                if ks.contains(k) {
                    let a = choose|a: int| 0 <= a < ks.len() && ks[a] == k;
                    assert(a < ks.len() - 1);
                    assert(front[a] == k);
                }
                if front.contains(k) {
                    let a = choose|a: int| 0 <= a < front.len() && front[a] == k;
                    assert(ks[a] == k);
                }
            }
        }
    }
}

/// The keys of the flows that the envelopes of `v` travel along, in increasing order.
fn flow_keys<Msg>(v: &Vec<Envelope<Msg>>) -> (ks: Vec<(u64, u64)>)
    ensures
        increasing(ks@),
        forall|k: (u64, u64)| ks@.contains(k) <==> has_flow(v@, k),
{
    let mut ks: Vec<(u64, u64)> = Vec::new();
    let mut i: usize = 0;
    while i < v.len()
        invariant
            i <= v@.len(),
            increasing(ks@),
            forall|k: (u64, u64)| ks@.contains(k) <==> has_flow(v@.take(i as int), k),
        decreases v@.len() - i,
    {
        let k = key_of(&v[i]);
        let mut p: usize = 0;
        while p < ks.len() && key_lt_exec(ks[p], k)
            invariant
                p <= ks@.len(),
                forall|a: int| 0 <= a < p ==> key_lt(#[trigger] ks@[a], k),
            decreases ks@.len() - p,
        {
            p = p + 1;
        }
        let ghost before = ks@;
        if p < ks.len() && key_eq(ks[p], k) {
        } else {
            ks.insert(p, k);
            proof {
                assert(ks@ == before.insert(p as int, k));
                assert forall|a: int, b: int| 0 <= a < b < ks@.len() implies key_lt(
                    #[trigger] ks@[a],
                    #[trigger] ks@[b],
                ) by {
                    if b < p {
                        assert(ks@[a] == before[a] && ks@[b] == before[b]);
                    } else if b == p {
                        assert(ks@[a] == before[a]);
                    } else if a < p {
                        assert(ks@[a] == before[a] && ks@[b] == before[b - 1]);
                        if p < before.len() {
                            assert(!key_lt(before[p as int], k));
                            assert(before[p as int] != k);
                        }
                        if b - 1 > p {
                            assert(key_lt(before[p as int], before[b - 1]));
                        }
                    } else if a == p {
                        assert(ks@[b] == before[b - 1]);
                        assert(!key_lt(before[p as int], k));
                        assert(before[p as int] != k);
                        if b - 1 > p {
                            assert(key_lt(before[p as int], before[b - 1]));
                        }
                    } else {
                        assert(ks@[a] == before[a - 1] && ks@[b] == before[b - 1]);
                    }
                }
            }
        }
        proof {
            let t = v@.take(i as int);
            let t1 = v@.take(i + 1);
            assert(t1 == t.push(v@[i as int]));
            assert forall|q: (u64, u64)| ks@.contains(q) <==> has_flow(t1, q) by {
                if has_flow(t1, q) {
                    let j = choose|j: int| 0 <= j < t1.len() && #[trigger] flow_key(t1[j]) == q;
                    if j < i {
                        assert(flow_key(t[j]) == q);
                        assert(before.contains(q));
                        let a = choose|a: int| 0 <= a < before.len() && before[a] == q;
                        if ks@ != before {
                            if a < p {
                                assert(ks@[a] == q);
                            } else {
                                assert(ks@[a + 1] == q);
                            }
                        }
                    } else {
                        if ks@ == before {
                            assert(ks@[p as int] == q);
                        } else {
                            assert(ks@[p as int] == q);
                        }
                    }
                }
                if ks@.contains(q) {
                    let a = choose|a: int| 0 <= a < ks@.len() && ks@[a] == q;
                    if q == k {
                        assert(flow_key(t1[i as int]) == q);
                    } else {
                        if ks@ != before {
                            if a < p {
                                assert(before[a] == q);
                            } else {
                                assert(a != p);
                                assert(before[a - 1] == q);
                            }
                        }
                        assert(before.contains(q));
                        assert(has_flow(t, q));
                        let j = choose|j: int| 0 <= j < t.len() && #[trigger] flow_key(t[j]) == q;
                        assert(flow_key(t1[j]) == q);
                    }
                }
            }
        }
        i = i + 1;
    }
    proof {
        assert(v@.take(v@.len() as int) == v@);
    }
    ks
}

/// Whether two flow keys are equal, computed.
fn key_eq(a: (u64, u64), b: (u64, u64)) -> (r: bool)
    ensures
        r == (a == b),
{
    a.0 == b.0 && a.1 == b.1
}

/// Whether flow key `a` comes before flow key `b`, computed.
fn key_lt_exec(a: (u64, u64), b: (u64, u64)) -> (r: bool)
    ensures
        r == key_lt(a, b),
{
    a.0 < b.0 || (a.0 == b.0 && a.1 < b.1)
}

impl<Msg: Clone + Eq + Hash> Clone for Network<Msg> {
    /// A network of the same kind holding a clone of each envelope, in order.
    fn clone(&self) -> (r: Self)
        ensures
            r.kind_of() == self.kind_of(),
            exact_clone::<Msg>() && exact_eq::<Msg>() ==> r.sent() == self.sent(),
            exact_clone::<Msg>() && self.kind_of() != NetworkKind::UnorderedDuplicating
                ==> r.sent() == self.sent(),
    {
        proof {
            use_type_invariant(self);
        }
        let mut r = Self::empty(self.kind);
        let mut i: usize = 0;
        while i < self.envelopes.len()
            invariant
                i <= self.envelopes@.len(),
                r.kind_of() == self.kind,
                exact_clone::<Msg>() && (exact_eq::<Msg>() || self.kind
                    != NetworkKind::UnorderedDuplicating) ==> r.sent() == self.envelopes@.take(
                    i as int,
                ),
                exact_eq::<Msg>() && self.kind == NetworkKind::UnorderedDuplicating
                    ==> self.envelopes@.no_duplicates(),
            decreases self.envelopes@.len() - i,
        {
            let e = &self.envelopes[i];
            let c = Envelope { src: e.src, dst: e.dst, msg: clone_exact(&e.msg) };
            proof {
                let t = self.envelopes@.take(i as int);
                assert(self.envelopes@.take(i + 1) == t.push(self.envelopes@[i as int]));
                if exact_eq::<Msg>() && self.kind == NetworkKind::UnorderedDuplicating
                    && exact_clone::<Msg>() {
                    assert(!t.contains(self.envelopes@[i as int])) by {
                        if t.contains(self.envelopes@[i as int]) {
                            let k = choose|k: int| 0 <= k < t.len() && t[k] == self.envelopes@[i as int];
                            assert(self.envelopes@[k] == self.envelopes@[i as int]);
                        }
                    }
                }
            }
            r.send(c);
            i = i + 1;
        }
        proof {
            assert(self.envelopes@.take(self.envelopes@.len() as int) == self.envelopes@);
        }
        r
    }
}

/// `m` holds the envelopes of `s`, each rewritten by `f`.
pub open spec fn rewrites_each<Msg: Rewrite<Id>>(
    s: Seq<Envelope<Msg>>,
    f: spec_fn(Id) -> Id,
    m: Seq<Envelope<Msg>>,
) -> bool {
    &&& m.len() == s.len()
    &&& forall|i: int| 0 <= i < s.len() ==> #[trigger] s[i].rewritten_as(f, m[i])
}

impl<Msg: Eq + Hash + Rewrite<Id>> Rewrite<Id> for Network<Msg> {
    /// `r` is a network of the same kind to which the envelopes, each rewritten, were sent in
    /// order.
    open spec fn rewritten_as(&self, f: spec_fn(Id) -> Id, r: Self) -> bool {
        &&& r.kind_of() == self.kind_of()
        &&& exists|m: Seq<Envelope<Msg>>|
            {
                &&& #[trigger] rewrites_each(self.sent(), f, m)
                &&& self.kind_of() != NetworkKind::UnorderedDuplicating ==> r.sent() == m
                &&& exact_eq::<Msg>() && self.kind_of() == NetworkKind::UnorderedDuplicating
                    ==> r.sent() == distinct(m)
            }
    }

    /// Sends each envelope, rewritten, in order to an empty network of the same kind.
    fn rewrite<S: Mapping<Id>>(&self, plan: &RewritePlan<Id, S>) -> (r: Self) {
        let ghost f = plan.rewriting();
        let ghost s = self.envelopes@;
        let ghost mut m: Seq<Envelope<Msg>> = Seq::empty();
        let dup = self.kind == NetworkKind::UnorderedDuplicating;
        let mut r = Self::empty(self.kind);
        let mut i: usize = 0;
        while i < self.envelopes.len()
            invariant
                s == self.envelopes@,
                f == plan.rewriting(),
                i <= s.len(),
                m.len() == i,
                dup == (self.kind == NetworkKind::UnorderedDuplicating),
                r.kind_of() == self.kind,
                S::faithful() ==> forall|j: int|
                    0 <= j < i ==> #[trigger] s[j].rewritten_as(f, m[j]),
                !dup ==> r.sent() == m,
                dup && exact_eq::<Msg>() ==> r.sent() == distinct(m),
            decreases s.len() - i,
        {
            let e = self.envelopes[i].rewrite(plan);
            r.send(e);
            proof {
                let m0 = m;
                m = m.push(e);
                assert(m.drop_last() == m0);
                assert(m.last() == e);
                assert forall|j: int| 0 <= j < i + 1 && S::faithful() implies #[trigger] s[j].rewritten_as(f, m[j]) by {
                    if j < i {
                        assert(m[j] == m0[j]);
                    }
                }
            }
            i = i + 1;
        }
        proof {
            assert(s == self.sent());
            if S::faithful() {
                assert(rewrites_each(self.sent(), f, m));
            }
        }
        r
    }
}

/// Delivering (or dropping) a message just sent to a network that does not duplicate messages
/// gives back the envelopes that were in flight before: the same envelopes as many times each,
/// and in the same order when no copy of the message was already in flight.
pub proof fn delivery_undoes_send<Msg>(
    before: Seq<Envelope<Msg>>,
    e: Envelope<Msg>,
    after: Seq<Envelope<Msg>>,
)
    requires
        removed_first(before.push(e), e, after),
    ensures
        after.to_multiset() == before.to_multiset(),
        !before.contains(e) ==> after == before,
{
    broadcast use vstd::seq_lib::group_to_multiset_ensures;
    broadcast use vstd::multiset::group_multiset_axioms;

    let s = before.push(e);
    let i = choose|i: int|
        0 <= i < s.len() && s[i] == e && (forall|j: int| 0 <= j < i ==> s[j] != e) && after
            == s.remove(i);
    assert(s.remove(i).to_multiset() == s.to_multiset().remove(e));
    assert(s.to_multiset() == before.to_multiset().insert(e));
    assert(before.to_multiset().insert(e).remove(e) =~= before.to_multiset());
    if !before.contains(e) {
        assert(i == before.len()) by {
            if i < before.len() {
                assert(before[i] == e);
            }
        }
        assert(s.remove(i) =~= before);
    }
}

/// The number standing for a kind of network in its digest.
pub open spec fn kind_code(kind: NetworkKind) -> u64 {
    match kind {
        NetworkKind::UnorderedDuplicating => 0,
        NetworkKind::UnorderedNonDuplicating => 1,
        NetworkKind::Ordered => 2,
    }
}

impl<Msg: Eq + Hash> Network<Msg> {
    /// The numbers that the network's hash is made of: a number for its kind, then the hashes
    /// of its envelopes, for an unordered network in increasing order (so that the order in which
    /// they were sent does not matter), for an ordered network flow by flow (the flows in key
    /// order, each in the order sent).
    pub fn digest(&self) -> (r: Vec<u64>)
        ensures
            r@.len() > 0,
            r@[0] == kind_code(self.kind_of()),
            self.kind_of() != NetworkKind::Ordered ==> r@.len() == self.sent().len() + 1 && sorted(r@.skip(1)),
    {
        let mut r: Vec<u64> = Vec::new();
        match self.kind {
            NetworkKind::UnorderedDuplicating => r.push(0),
            NetworkKind::UnorderedNonDuplicating => r.push(1),
            NetworkKind::Ordered => r.push(2),
        }
        let all = self.iter_all();
        let mut hashes: Vec<u64> = Vec::new();
        let mut i: usize = 0;
        while i < all.len()
            invariant
                i <= all@.len(),
                hashes@.len() == i,
            decreases all@.len() - i,
        {
            hashes.push(hash_of(&all[i]));
            i = i + 1;
        }
        proof {
            if self.kind != NetworkKind::Ordered {
                assert(owned_all(all@).len() == all@.len());
            }
        }
        let ghost raw = hashes@;
        let hashes = if self.kind == NetworkKind::Ordered {
            hashes
        } else {
            sort_numbers(hashes)
        };
        proof {
            if self.kind != NetworkKind::Ordered {
                vstd::seq_lib::to_multiset_len(raw);
                vstd::seq_lib::to_multiset_len(hashes@);
                assert(hashes@.len() == raw.len());
            }
        }
        let ghost head = r@;
        let mut j: usize = 0;
        while j < hashes.len()
            invariant
                j <= hashes@.len(),
                r@ == head + hashes@.take(j as int),
            decreases hashes@.len() - j,
        {
            r.push(hashes[j]);
            proof {
                assert(hashes@.take(j + 1) == hashes@.take(j as int).push(hashes@[j as int]));
            }
            j = j + 1;
        }
        proof {
            assert(hashes@.take(hashes@.len() as int) == hashes@);
            assert(r@.skip(1) == hashes@);
        }
        r
    }
}

impl<Msg: Eq + Hash> Hash for Network<Msg> {
    /// Hashes the digest, so that equal unordered networks hash alike whatever the order in
    /// which their messages were sent.
    fn hash<H: core::hash::Hasher>(&self, state: &mut H) {
        let d = self.digest();
        feed(&d, state);
    }
}

/// How many copies of `e` the sequence `v` holds, counted.
fn count_in<Msg: Eq>(v: &Vec<Envelope<Msg>>, e: &Envelope<Msg>) -> (r: usize)
    ensures
        exact_eq::<Msg>() ==> r == v@.to_multiset().count(*e),
{
    let mut n: usize = 0;
    let mut i: usize = 0;
    proof {
        vstd::seq_lib::to_multiset_contains(v@.take(0), *e);
    }
    while i < v.len()
        invariant
            i <= v@.len(),
            n <= i,
            exact_eq::<Msg>() ==> n == v@.take(i as int).to_multiset().count(*e),
        decreases v@.len() - i,
    {
        proof {
            broadcast use vstd::multiset::group_multiset_axioms;
            assert(v@.take(i + 1) == v@.take(i as int).push(v@[i as int]));
            vstd::seq_lib::to_multiset_build(v@.take(i as int), v@[i as int]);
            vstd::seq_lib::to_multiset_len(v@.take(i as int));
            if exact_eq::<Msg>() {
                assert(v@.take(i as int).to_multiset().count(*e) <= v@.take(i as int).to_multiset().len());
            }
        }
        if same_envelope(&v[i], e) {
            n = n + 1;
        }
        i = i + 1;
    }
    proof {
        assert(v@.take(v@.len() as int) == v@);
    }
    n
}

/// Whether every envelope of `a` is held as many times by `b` as by `a`.
fn counts_agree<Msg: Eq>(a: &Vec<Envelope<Msg>>, b: &Vec<Envelope<Msg>>) -> (r: bool)
    ensures
        exact_eq::<Msg>() ==> r == forall|i: int|
            0 <= i < a@.len() ==> a@.to_multiset().count(#[trigger] a@[i])
                == b@.to_multiset().count(a@[i]),
{
    let mut i: usize = 0;
    while i < a.len()
        invariant
            i <= a@.len(),
            exact_eq::<Msg>() ==> forall|j: int|
                0 <= j < i ==> a@.to_multiset().count(#[trigger] a@[j]) == b@.to_multiset().count(
                    a@[j],
                ),
        decreases a@.len() - i,
    {
        if count_in(a, &a[i]) != count_in(b, &a[i]) {
            return false;
        }
        i = i + 1;
    }
    true
}

/// The positions of the envelopes of `v` that travel along the flow with key `k`, in order.
fn flow_positions<Msg>(v: &Vec<Envelope<Msg>>, k: (u64, u64)) -> (r: Vec<usize>)
    ensures
        forall|t: int| 0 <= t < r@.len() ==> #[trigger] r@[t] < v@.len(),
        flow_of(v@, k) == r@.map_values(|t: usize| v@[t as int]),
{
    let mut r: Vec<usize> = Vec::new();
    let mut i: usize = 0;
    while i < v.len()
        invariant
            i <= v@.len(),
            forall|t: int| 0 <= t < r@.len() ==> #[trigger] r@[t] < i,
            flow_of(v@.take(i as int), k) == r@.map_values(|t: usize| v@[t as int]),
        decreases v@.len() - i,
    {
        proof {
            lemma_flow_push(v@.take(i as int), v@[i as int], k);
            assert(v@.take(i + 1) == v@.take(i as int).push(v@[i as int]));
        }
        if key_eq(key_of(&v[i]), k) {
            let ghost before = r@;
            r.push(i);
            proof {
                assert(r@.map_values(|t: usize| v@[t as int]) == before.map_values(
                    |t: usize| v@[t as int],
                ).push(v@[i as int]));
            }
        }
        i = i + 1;
    }
    proof {
        assert(v@.take(v@.len() as int) == v@);
    }
    r
}

/// Whether the flow with key `k` holds the same envelopes, in the same order, in `a` and `b`.
fn same_flow<Msg: Eq>(a: &Vec<Envelope<Msg>>, b: &Vec<Envelope<Msg>>, k: (u64, u64)) -> (r: bool)
    ensures
        exact_eq::<Msg>() ==> r == (flow_of(a@, k) == flow_of(b@, k)),
{
    let pa = flow_positions(a, k);
    let pb = flow_positions(b, k);
    let ghost fa = flow_of(a@, k);
    let ghost fb = flow_of(b@, k);
    proof {
        assert(fa.len() == pa@.len());
        assert(fb.len() == pb@.len());
    }
    if pa.len() != pb.len() {
        return false;
    }
    let mut t: usize = 0;
    while t < pa.len()
        invariant
            pa@.len() == pb@.len(),
            t <= pa@.len(),
            forall|x: int| 0 <= x < pa@.len() ==> #[trigger] pa@[x] < a@.len(),
            forall|x: int| 0 <= x < pb@.len() ==> #[trigger] pb@[x] < b@.len(),
            fa == pa@.map_values(|x: usize| a@[x as int]),
            fb == pb@.map_values(|x: usize| b@[x as int]),
            exact_eq::<Msg>() ==> forall|x: int| 0 <= x < t ==> #[trigger] fa[x] == fb[x],
            fa.len() == pa@.len(),
            fb.len() == pb@.len(),
            fa == flow_of(a@, k),
            fb == flow_of(b@, k),
        decreases pa@.len() - t,
    {
        proof {
            assert(fa[t as int] == a@[pa@[t as int] as int]);
            assert(fb[t as int] == b@[pb@[t as int] as int]);
        }
        if !same_envelope(&a[pa[t]], &b[pb[t]]) {
            proof {
                assert(fa[t as int] != fb[t as int] || !exact_eq::<Msg>());
            }
            return false;
        }
        t = t + 1;
    }
    proof {
        if exact_eq::<Msg>() {
            assert(fa =~= fb);
        }
    }
    true
}

/// Whether every flow of `a` holds the same envelopes, in the same order, in `b`.
fn flows_agree<Msg: Eq>(a: &Vec<Envelope<Msg>>, b: &Vec<Envelope<Msg>>) -> (r: bool)
    ensures
        exact_eq::<Msg>() ==> r == forall|k: (u64, u64)|
            has_flow(a@, k) ==> #[trigger] flow_of(a@, k) == flow_of(b@, k),
{
    let ks = flow_keys(a);
    let mut i: usize = 0;
    while i < ks.len()
        invariant
            i <= ks@.len(),
            forall|k: (u64, u64)| ks@.contains(k) <==> has_flow(a@, k),
            exact_eq::<Msg>() ==> forall|j: int|
                0 <= j < i ==> #[trigger] flow_of(a@, ks@[j]) == flow_of(b@, ks@[j]),
        decreases ks@.len() - i,
    {
        if !same_flow(a, b, ks[i]) {
            proof {
                if exact_eq::<Msg>() {
                    assert(ks@.contains(ks@[i as int]));
                    assert(has_flow(a@, ks@[i as int]));
                }
            }
            return false;
        }
        i = i + 1;
    }
    proof {
        assert forall|k: (u64, u64)| has_flow(a@, k) implies #[trigger] flow_of(a@, k) == flow_of(b@, k) || !exact_eq::<Msg>() by {
            assert(ks@.contains(k));
            let j = choose|j: int| 0 <= j < ks@.len() && ks@[j] == k;
        }
    }
    true
}

/// Two networks are equal when they are of the same kind and hold the same messages: the same
/// envelopes, as many times each, for an unordered network; the same flows, each in the same
/// order, for an ordered one.
pub open spec fn same_network<Msg: Eq + Hash>(a: Network<Msg>, b: Network<Msg>) -> bool {
    &&& a.kind_of() == b.kind_of()
    &&& a.kind_of() != NetworkKind::Ordered ==> a.sent().to_multiset() == b.sent().to_multiset()
    &&& a.kind_of() == NetworkKind::Ordered ==> forall|k: (u64, u64)|
        #[trigger] flow_of(a.sent(), k) == flow_of(b.sent(), k)
}

impl<Msg: Eq + Hash> PartialEq for Network<Msg> {
    fn eq(&self, other: &Self) -> (r: bool) {
        if self.kind != other.kind {
            return false;
        }
        let a = &self.envelopes;
        let b = &other.envelopes;
        if self.kind != NetworkKind::Ordered {
            let r = a.len() == b.len() && counts_agree(a, b) && counts_agree(b, a);
            proof {
                if exact_eq::<Msg>() {
                    lemma_same_counts(a@, b@);
                    assert(r == same_network(*self, *other));
                }
            }
            r
        } else {
            let r1 = flows_agree(a, b);
            if !r1 {
                proof {
                    if exact_eq::<Msg>() {
                        let k = choose|k: (u64, u64)|
                            has_flow(a@, k) && !(#[trigger] flow_of(a@, k) == flow_of(b@, k));
                        assert(self.sent() == a@ && other.sent() == b@);
                        assert(flow_of(self.sent(), k) != flow_of(other.sent(), k));
                        assert(!same_network(*self, *other));
                    }
                }
                return false;
            }
            let r2 = flows_agree(b, a);
            proof {
                if exact_eq::<Msg>() {
                    if r2 {
                        assert forall|k: (u64, u64)| #[trigger] flow_of(a@, k) == flow_of(b@, k) by {
                            if has_flow(a@, k) {
                            } else if has_flow(b@, k) {
                                assert(flow_of(b@, k) == flow_of(a@, k));
                            } else {
                                lemma_flow_absent(a@, k);
                                lemma_flow_absent(b@, k);
                            }
                        }
                    } else {
                        let k = choose|k: (u64, u64)|
                            has_flow(b@, k) && !(#[trigger] flow_of(b@, k) == flow_of(a@, k));
                        assert(self.sent() == a@ && other.sent() == b@);
                        assert(flow_of(self.sent(), k) != flow_of(other.sent(), k));
                        assert(!same_network(*self, *other));
                    }
                }
            }
            r2
        }
    }
}

impl<Msg: Eq + Hash> PartialEqSpecImpl for Network<Msg> {
    open spec fn obeys_eq_spec() -> bool {
        exact_eq::<Msg>()
    }

    open spec fn eq_spec(&self, other: &Self) -> bool {
        same_network(*self, *other)
    }
}

impl<Msg: Eq + Hash> Eq for Network<Msg> {
}

/// Two sequences of the same length whose elements occur as many times in one as in the other
/// are permutations of one another.
proof fn lemma_same_counts<T>(a: Seq<T>, b: Seq<T>)
    ensures
        (a.len() == b.len() && (forall|i: int|
            0 <= i < a.len() ==> a.to_multiset().count(#[trigger] a[i]) == b.to_multiset().count(
                a[i],
            )) && (forall|i: int|
            0 <= i < b.len() ==> b.to_multiset().count(#[trigger] b[i]) == a.to_multiset().count(
                b[i],
            ))) <==> a.to_multiset() == b.to_multiset(),
{
    broadcast use vstd::seq_lib::group_to_multiset_ensures;

    if a.to_multiset() == b.to_multiset() {
        assert(a.len() == a.to_multiset().len());
        assert(b.len() == b.to_multiset().len());
    }
    if a.len() == b.len() && (forall|i: int|
        0 <= i < a.len() ==> a.to_multiset().count(#[trigger] a[i]) == b.to_multiset().count(
            a[i],
        )) && (forall|i: int|
        0 <= i < b.len() ==> b.to_multiset().count(#[trigger] b[i]) == a.to_multiset().count(
            b[i],
        )) {
        assert forall|x: T| a.to_multiset().count(x) == b.to_multiset().count(x) by {
            if a.to_multiset().count(x) > 0 {
                assert(a.contains(x));
                let i = choose|i: int| 0 <= i < a.len() && a[i] == x;
            } else if b.to_multiset().count(x) > 0 {
                assert(b.contains(x));
                let i = choose|i: int| 0 <= i < b.len() && b[i] == x;
            }
        }
        assert(a.to_multiset() =~= b.to_multiset());
    }
}

/// Removing the first copy of `e` from a sequence without duplicates removes every copy.
proof fn lemma_remove_only_copy<Msg>(s: Seq<Envelope<Msg>>, e: Envelope<Msg>, r: Seq<Envelope<Msg>>)
    requires
        s.no_duplicates(),
        s.contains(e) ==> removed_first(s, e, r),
        !s.contains(e) ==> r == s,
    ensures
        r == s.filter(other_than(e)),
    decreases s.len(),
{
    let p = other_than(e);
    if s.len() == 0 {
        reveal(Seq::filter);
        assert(r =~= s.filter(p));
    } else if !s.contains(e) {
        lemma_filter_keeps_all(s, e);
    } else {
        let i = choose|i: int|
            0 <= i < s.len() && s[i] == e && (forall|j: int| 0 <= j < i ==> s[j] != e) && r
                == s.remove(i);
        let pre = s.take(i);
        let post = s.skip(i + 1);
        assert(s == pre + seq![e] + post);
        assert(r == pre + post);
        assert(!pre.contains(e));
        assert(!post.contains(e)) by {
            if post.contains(e) {
                let k = choose|k: int| 0 <= k < post.len() && post[k] == e;
                assert(s[i + 1 + k] == s[i]);
            }
        }
        lemma_filter_keeps_all(pre, e);
        lemma_filter_keeps_all(post, e);
        Seq::filter_distributes_over_add(pre + seq![e], post, p);
        Seq::filter_distributes_over_add(pre, seq![e], p);
        Seq::filter_distributes_over_add(pre, post, p);
        assert(seq![e].filter(p) =~= Seq::<Envelope<Msg>>::empty()) by {
            reveal_with_fuel(Seq::filter, 2);
        }
        assert(s.filter(p) == r);
    }
}

/// Filtering out an element that a sequence does not hold keeps the sequence.
proof fn lemma_filter_keeps_all<Msg>(s: Seq<Envelope<Msg>>, e: Envelope<Msg>)
    requires
        !s.contains(e),
    ensures
        s.filter(other_than(e)) == s,
    decreases s.len(),
{
    let p = other_than(e);
    reveal(Seq::filter);
    if s.len() > 0 {
        assert(!s.drop_last().contains(e)) by {
            if s.drop_last().contains(e) {
                let k = choose|k: int| 0 <= k < s.drop_last().len() && s.drop_last()[k] == e;
                assert(s[k] == e);
            }
        }
        lemma_filter_keeps_all(s.drop_last(), e);
        assert(s.last() != e) by {
            assert(s[s.len() - 1] == s.last());
        }
        assert(s.drop_last().push(s.last()) == s);
        assert(p(s.last()));
        assert(s.filter(p) == s.drop_last().filter(p).push(s.last()));
    } else {
        assert(s.filter(p) =~= s);
    }
}

} // verus!
