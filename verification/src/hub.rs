//! The pages connected over the live-reload socket, and the site's version.
//!
//! The hub holds each page's connection under an id of its own; what a
//! connection is (a socket, here) is the caller's business. The hub decides
//! who is connected, which version the site is at, and the frames that each
//! event sends.
use vstd::prelude::*;
use crate::ws::{frame_of, hello_message, hello_text, reload_message, reload_text, text_frame};

verus! {

/// The ids of a list of connections.
pub open spec fn ids_of<T>(s: Seq<(u64, T)>) -> Seq<u64> {
    s.map_values(|p: (u64, T)| p.0)
}

/// Whether an id is not among the given dead ones.
pub open spec fn alive(dead: Seq<u64>) -> spec_fn(u64) -> bool {
    |x: u64| !dead.contains(x)
}

/// Whether a connection's id is not among the given dead ones.
pub open spec fn alive_entry<T>(dead: Seq<u64>) -> spec_fn((u64, T)) -> bool {
    |e: (u64, T)| !dead.contains(e.0)
}

/// The frame that carries a text message.
pub open spec fn text_frame_of(text: Seq<char>) -> Seq<u8> {
    frame_of(1, vstd::utf8::encode_utf8(text))
}

pub struct Hub<T> {
    clients: Vec<(u64, T)>,
    version: u64,
    next_id: u64,
}

impl<T> Hub<T> {
    #[verifier::type_invariant]
    spec fn ids_below_next(self) -> bool {
        forall|i: int| 0 <= i < self.clients@.len() ==> #[trigger] self.clients@[i].0 < self.next_id
    }

    /// The connected pages, oldest first: each page's id with its
    /// connection.
    pub closed spec fn entries(self) -> Seq<(u64, T)> {
        self.clients@
    }

    /// The ids of the connected pages, oldest first.
    pub open spec fn ids(self) -> Seq<u64> {
        ids_of(self.entries())
    }

    /// The site's version: 1 at the start, one more at each reload.
    pub closed spec fn version_of(self) -> u64 {
        self.version
    }

    /// The id that the next page to connect gets.
    pub closed spec fn next_of(self) -> u64 {
        self.next_id
    }

    /// No page connected, version 1.
    pub fn new() -> (h: Self)
        ensures
            h.entries() == Seq::<(u64, T)>::empty(),
            h.ids() == Seq::<u64>::empty(),
            h.version_of() == 1,
            h.next_of() == 0,
    {
        let h = Hub { clients: Vec::new(), version: 1, next_id: 0 };
        assert(ids_of(h.clients@) =~= Seq::<u64>::empty());
        h
    }

    pub fn version(&self) -> (v: u64)
        ensures
            v == self.version_of(),
    {
        self.version
    }

    pub fn next_id(&self) -> (v: u64)
        ensures
            v == self.next_of(),
    {
        self.next_id
    }

    /// The connected pages with their ids, oldest first.
    pub fn clients(&self) -> (r: &Vec<(u64, T)>)
        ensures
            r@ == self.entries(),
            ids_of(r@) == self.ids(),
    {
        &self.clients
    }

    /// A page connects: it is added last under a fresh id, and gets the
    /// hello frame with the current version.
    pub fn connect(&mut self, conn: T) -> (r: (u64, Vec<u8>))
        requires
            old(self).next_of() < u64::MAX,
        ensures
            r.0 == old(self).next_of(),
            !old(self).ids().contains(r.0),
            final(self).entries() == old(self).entries().push((r.0, conn)),
            final(self).ids() == old(self).ids().push(r.0),
            final(self).next_of() == old(self).next_of() + 1,
            final(self).version_of() == old(self).version_of(),
            r.1@ == text_frame_of(hello_text(old(self).version_of())),
    {
        proof {
            use_type_invariant(&*self);
        }
        let id = self.next_id;
        let hello = hello_message(self.version);
        let frame = text_frame(hello.as_str());
        proof {
            assert forall|i: int| 0 <= i < self.clients@.len() implies ids_of(self.clients@)[i] != id by {
                assert(self.clients@[i].0 < self.next_id);
            }
        }
        let mut clients: Vec<(u64, T)> = Vec::new();
        std::mem::swap(&mut clients, &mut self.clients);
        clients.push((id, conn));
        self.next_id = id + 1;
        self.clients = clients;
        proof {
            assert(ids_of(self.clients@) =~= ids_of(old(self).clients@).push(id));
        }
        (id, frame)
    }

    /// A page leaves: the first entry under its id is dropped, the others
    /// keep their order; an unknown id changes nothing.
    pub fn remove(&mut self, id: u64)
        ensures
            final(self).version_of() == old(self).version_of(),
            final(self).next_of() == old(self).next_of(),
            !old(self).ids().contains(id) ==> final(self).entries() == old(self).entries(),
            old(self).ids().contains(id) ==> exists|p: int|
                0 <= p < old(self).ids().len()
                && old(self).ids()[p] == id
                && (forall|j: int| 0 <= j < p ==> old(self).ids()[j] != id)
                && final(self).entries() == old(self).entries().remove(p)
                && final(self).ids() == old(self).ids().remove(p),
    {
        proof {
            use_type_invariant(&*self);
        }
        let ghost ids0 = ids_of(self.clients@);
        let n = self.clients.len();
        let mut i: usize = 0;
        while i < n
            invariant
                n == self.clients@.len(),
                ids0 == ids_of(self.clients@),
                ids0 == old(self).ids(),
                self.clients@ == old(self).entries(),
                self.version == old(self).version,
                self.next_id == old(self).next_id,
                forall|k: int| 0 <= k < self.clients@.len() ==> #[trigger] self.clients@[k].0 < self.next_id,
                i <= n,
                forall|j: int| 0 <= j < i ==> ids0[j] != id,
            decreases n - i,
        {
            if self.clients[i].0 == id {
                let mut clients: Vec<(u64, T)> = Vec::new();
                std::mem::swap(&mut clients, &mut self.clients);
                let ghost c0 = clients@;
                let _gone = clients.remove(i);
                proof {
                    assert(ids_of(clients@) =~= ids0.remove(i as int));
                    assert(clients@ == c0.remove(i as int));
                    assert forall|k: int| 0 <= k < clients@.len() implies #[trigger] clients@[k].0 < self.next_id by {
                        if k < i {
                            assert(clients@[k] == c0[k]);
                        } else {
                            assert(clients@[k] == c0[k + 1]);
                        }
                    }
                }
                self.clients = clients;
                proof {
                    assert(ids0[i as int] == id);
                    assert(ids0.contains(id));
                }
                return;
            }
            i = i + 1;
        }
        proof {
            assert forall|k: int| 0 <= k < ids0.len() implies ids0[k] != id by {}
        }
    }

    /// The site was rebuilt: the version goes up by one, and the reload frame
    /// with the new version is what every page is sent.
    pub fn reload(&mut self) -> (r: Vec<u8>)
        requires
            old(self).version_of() < u64::MAX,
        ensures
            final(self).version_of() == old(self).version_of() + 1,
            final(self).entries() == old(self).entries(),
            final(self).next_of() == old(self).next_of(),
            r@ == text_frame_of(reload_text(final(self).version_of())),
    {
        proof {
            use_type_invariant(&*self);
        }
        self.version = self.version + 1;
        let msg = reload_message(self.version);
        text_frame(msg.as_str())
    }

    /// The pages that could not be written to are dropped; the others keep
    /// their order.
    pub fn drop_dead(&mut self, dead: &[u64])
        ensures
            final(self).entries() == old(self).entries().filter(alive_entry::<T>(dead@)),
            final(self).ids() == old(self).ids().filter(alive(dead@)),
            final(self).version_of() == old(self).version_of(),
            final(self).next_of() == old(self).next_of(),
    {
        proof {
            use_type_invariant(&*self);
        }
        let ghost orig = self.clients@;
        let ghost p = alive(dead@);
        let ghost pe = alive_entry::<T>(dead@);
        let mut rest: Vec<(u64, T)> = Vec::new();
        std::mem::swap(&mut rest, &mut self.clients);
        let mut kept: Vec<(u64, T)> = Vec::new();
        proof {
            reveal(Seq::filter);
            assert(ids_of(orig).take(0) =~= Seq::<u64>::empty());
            assert(ids_of(orig).take(0).filter(p) =~= Seq::<u64>::empty());
            assert(orig.take(0) =~= Seq::<(u64, T)>::empty());
            assert(orig.take(0).filter(pe) =~= Seq::<(u64, T)>::empty());
            assert(rest@ =~= orig.subrange(0, orig.len() as int));
        }
        while rest.len() > 0
            invariant
                rest@ == orig.subrange(orig.len() - rest@.len(), orig.len() as int),
                rest@.len() <= orig.len(),
                ids_of(kept@) == ids_of(orig).take(orig.len() - rest@.len()).filter(p),
                kept@ == orig.take(orig.len() - rest@.len()).filter(pe),
                pe == alive_entry::<T>(dead@),
                forall|i: int| 0 <= i < orig.len() ==> #[trigger] orig[i].0 < self.next_id,
                forall|i: int| 0 <= i < kept@.len() ==> #[trigger] kept@[i].0 < self.next_id,
                p == alive(dead@),
            decreases rest@.len(),
        {
            let ghost k = orig.len() - rest@.len();
            let entry = rest.remove(0);
            proof {
                assert(entry == orig[k]);
                assert(rest@ =~= orig.subrange(k + 1, orig.len() as int));
                assert(ids_of(orig).take(k + 1) =~= ids_of(orig).take(k).push(entry.0));
                ids_of(orig).take(k).lemma_filter_push(entry.0, p);
                assert(orig.take(k + 1) =~= orig.take(k).push(entry));
                orig.take(k).lemma_filter_push(entry, pe);
            }
            if !contains_id(dead, entry.0) {
                let ghost before = kept@;
                kept.push(entry);
                proof {
                    assert(ids_of(kept@) =~= ids_of(before).push(entry.0));
                }
            }
        }
        proof {
            assert(ids_of(orig).take(orig.len() as int) =~= ids_of(orig));
            assert(orig.take(orig.len() as int) =~= orig);
        }
        self.clients = kept;
    }
}

/// A page that connects and then leaves leaves the list of pages as it was:
/// its fresh id stands only at the end, and dropping it there gives the
/// list back.
pub proof fn lemma_connect_then_remove(ids: Seq<u64>, id: u64, p: int)
    requires
        !ids.contains(id),
        0 <= p <= ids.len(),
        ids.push(id)[p] == id,
    ensures
        p == ids.len(),
        ids.push(id).remove(p) == ids,
{
    if p < ids.len() {
        assert(ids[p] == id);
    }
    assert(ids.push(id).remove(p) =~= ids);
}

fn contains_id(v: &[u64], x: u64) -> (r: bool)
    ensures
        r == v@.contains(x),
{
    let mut i: usize = 0;
    while i < v.len()
        invariant
            i <= v@.len(),
            forall|j: int| 0 <= j < i ==> v@[j] != x,
        decreases v@.len() - i,
    {
        if v[i] == x {
            return true;
        }
        i = i + 1;
    }
    false
}

} // verus!
