//! The files of the source set that count as shipped, for duplicates among them.

use crate::dedup::{digest_view, identical, same_digest, Contents, Digest, HashCache, HashQuery};
use crate::paths::{join, under};
use crate::template::text_view;
use std::collections::HashMap;
use vstd::prelude::*;

verus! {

/// A file that has been planned and counts as shipped content.
#[verifier::ext_equal]
pub struct TwinView {
    pub source: Seq<char>,
    pub dest: Option<Seq<char>>,
    pub size: u64,
}

/// Whether a file is a twin of a shipped one.
pub open spec fn is_twin(
    c: Contents,
    root: Seq<char>,
    twin: TwinView,
    abs: Seq<char>,
    size: u64,
) -> bool {
    twin.size == size && identical(c, abs, under(root, twin.source), size as nat)
}

/// The first shipped file, from the `from`th on, that holds identical bytes.
pub open spec fn first_twin(
    c: Contents,
    root: Seq<char>,
    twins: Seq<TwinView>,
    abs: Seq<char>,
    size: u64,
    from: int,
) -> Option<int>
    decreases twins.len() - from,
{
    if from < 0 || from >= twins.len() {
        None
    } else if is_twin(c, root, twins[from], abs, size) {
        Some(from)
    } else {
        first_twin(c, root, twins, abs, size, from + 1)
    }
}

/// Whether a question is about a shipped file of that size, or about the file itself
/// where there is one: a unique size costs no hashing.
pub open spec fn asks_of_twins(
    q: HashQuery,
    root: Seq<char>,
    twins: Seq<TwinView>,
    abs: Seq<char>,
    size: u64,
) -> bool {
    exists|i: int|
        0 <= i < twins.len() && (#[trigger] twins[i]).size == size && (q.is_about(abs, size)
            || q.is_about(under(root, twins[i].source), size))
}

/// What is known of a shipped file's sampled hash.
#[derive(Debug, Clone, Copy)]
enum Edge {
    Unknown,
    Unreadable,
    Known(Digest),
}

/// What dedup has to remember about an already-planned file. It cannot be an
/// index into the operations: by now they may be on disk.
struct Twin {
    source_rel: String,
    dest_rel: Option<String>,
    size: u64,
    edge: Edge,
}

impl View for Twin {
    type V = TwinView;

    closed spec fn view(&self) -> TwinView {
        TwinView { source: self.source_rel@, dest: text_view(self.dest_rel), size: self.size }
    }
}

/// Source-side duplicate memory.
///
/// A file is parked under its size until a second file of that size turns up;
/// only then is anything hashed, so the usual case of a unique size costs no
/// I/O. Once a size repeats, the sampled hashes of its twins are kept, and every
/// later comparison is one of digests rather than of files.
pub(crate) struct Twins {
    list: Vec<Twin>,
    by_size: HashMap<u64, Vec<usize>>,
}

spec fn twin_views(list: Seq<Twin>) -> Seq<TwinView> {
    list.map_values(|t: Twin| t@)
}

impl View for Twins {
    type V = Seq<TwinView>;

    closed spec fn view(&self) -> Seq<TwinView> {
        twin_views(self.list@)
    }
}

spec fn edge_agrees(twin: Twin, root: Seq<char>, c: Contents) -> bool {
    match twin.edge {
        Edge::Unknown => true,
        Edge::Unreadable => (c.edge)(under(root, twin.source_rel@), twin.size as nat) is None,
        Edge::Known(d) => (c.edge)(under(root, twin.source_rel@), twin.size as nat) == Some(d@),
    }
}

/// The places of the files of the given size.
spec fn places_of(list: Seq<Twin>, size: u64, v: Seq<usize>) -> bool {
    &&& forall|k: int| 0 <= k < v.len() ==> #[trigger] v[k] < list.len() && list[v[k] as int].size
        == size
    &&& forall|i: int, j: int| 0 <= i < j < v.len() ==> #[trigger] v[i] < #[trigger] v[j]
    &&& forall|i: int|
        0 <= i < list.len() && (#[trigger] list[i]).size == size ==> v.contains(i as usize)
}

impl Twins {
    pub closed spec fn wf(self) -> bool {
        forall|size: u64|
            #![trigger self.by_size@.dom().contains(size)]
            if self.by_size@.dom().contains(size) {
                places_of(self.list@, size, self.by_size@[size]@)
            } else {
                places_of(self.list@, size, seq![])
            }
    }

    /// The sampled hashes that are kept are true of the contents.
    pub closed spec fn agrees(self, root: Seq<char>, c: Contents) -> bool {
        forall|i: int| 0 <= i < self.list@.len() ==> edge_agrees(#[trigger] self.list@[i], root, c)
    }

    pub fn new() -> (r: Twins)
        ensures
            r.wf(),
            r@ == Seq::<TwinView>::empty(),
            forall|root: Seq<char>, c: Contents| #[trigger] r.agrees(root, c),
    {
        let r = Twins { list: Vec::new(), by_size: HashMap::new() };
        assert(r@ =~= Seq::<TwinView>::empty());
        r
    }

    pub fn remember(&mut self, source_rel: String, dest_rel: Option<String>, size: u64)
        requires
            old(self).wf(),
        ensures
            final(self).wf(),
            final(self)@ == old(self)@.push(
                TwinView { source: source_rel@, dest: text_view(dest_rel), size },
            ),
            forall|root: Seq<char>, c: Contents|
                old(self).agrees(root, c) ==> #[trigger] final(self).agrees(root, c),
    {
        let ghost before = *self;
        let ghost view = TwinView { source: source_rel@, dest: text_view(dest_rel), size };
        let at = self.list.len();
        assert(before.by_size@.dom().contains(size) || !before.by_size@.dom().contains(size));
        let mut places = match self.by_size.remove(&size) {
            Some(v) => v,
            None => Vec::new(),
        };
        let ghost old_places = places@;
        places.push(at);
        let ghost new_places = places@;
        self.by_size.insert(size, places);
        self.list.push(Twin { source_rel, dest_rel, size, edge: Edge::Unknown });
        proof {
            assert(places_of(before.list@, size, old_places));
            assert(self@ =~= before@.push(view));
            assert forall|other: u64|
                #![trigger self.by_size@.dom().contains(other)]
                if self.by_size@.dom().contains(other) {
                    places_of(self.list@, other, self.by_size@[other]@)
                } else {
                    places_of(self.list@, other, seq![])
                } by {
                if other == size {
                    lemma_places_push(before.list@, self.list@, size, old_places, new_places);
                } else {
                    assert(before.by_size@.dom().contains(other) == self.by_size@.dom().contains(
                        other,
                    ));
                    let v = if before.by_size@.dom().contains(other) {
                        before.by_size@[other]@
                    } else {
                        seq![]
                    };
                    assert(places_of(before.list@, other, v));
                    assert forall|i: int|
                        0 <= i < self.list@.len() && (#[trigger] self.list@[i]).size
                            == other implies v.contains(i as usize) by {
                        assert(before.list@[i] == self.list@[i]);
                    }
                }
            }
            assert forall|root: Seq<char>, c: Contents|
                before.agrees(root, c) implies #[trigger] self.agrees(root, c) by {
                assert forall|i: int| 0 <= i < self.list@.len() implies edge_agrees(
                    #[trigger] self.list@[i],
                    root,
                    c,
                ) by {
                    if i < before.list@.len() {
                        assert(self.list@[i] == before.list@[i]);
                    }
                }
            }
        }
    }
}

/// A file that cannot be read, or whose sampled hash differs, is no twin.
proof fn lemma_first_twin(
    c: Contents,
    root: Seq<char>,
    twins: Seq<TwinView>,
    abs: Seq<char>,
    size: u64,
    from: int,
    at: int,
)
    requires
        0 <= from <= at <= twins.len(),
        forall|i: int| from <= i < at ==> !is_twin(c, root, #[trigger] twins[i], abs, size),
        at < twins.len() ==> is_twin(c, root, twins[at], abs, size),
    ensures
        first_twin(c, root, twins, abs, size, from) == (if at < twins.len() {
            Some(at)
        } else {
            None::<int>
        }),
    decreases at - from,
{
    if from < at {
        lemma_first_twin(c, root, twins, abs, size, from + 1, at);
    }
}

impl Twins {
    /// Fills in what is remembered of the sampled hash of a file.
    fn sample(&mut self, hashes: &HashCache, source_root: &str, at: usize) -> (r: Option<HashQuery>)
        requires
            old(self).wf(),
            at < old(self).list@.len(),
        ensures
            final(self).wf(),
            final(self)@ == old(self)@,
            final(self).list@.len() == old(self).list@.len(),
            final(self).by_size == old(self).by_size,
            forall|i: int|
                0 <= i < final(self).list@.len() ==> (#[trigger] final(self).list@[i]).size == old(
                    self,
                ).list@[i].size,
            forall|i: int|
                0 <= i < final(self).list@.len() && i != at ==> #[trigger] final(self).list@[i]
                    == old(self).list@[i],
            forall|c: Contents| #[trigger]
                old(self).agrees(source_root@, c) && hashes.agrees(c) ==> final(self).agrees(
                    source_root@,
                    c,
                ),
            match r {
                None => !(final(self).list@[at as int].edge is Unknown),
                Some(q) => !hashes.knows(q) && q.is_about(
                    under(source_root@, old(self)@[at as int].source),
                    old(self)@[at as int].size,
                ),
            },
    {
        let ghost before = *self;
        if !matches!(self.list[at].edge, Edge::Unknown) {
            return None;
        }
        let size = self.list[at].size;
        let path = join(source_root, self.list[at].source_rel.as_str());
        match hashes.partial(path.as_str(), size) {
            None => Some(HashQuery::Partial { path, size }),
            Some(d) => {
                let edge = match d {
                    Some(d) => Edge::Known(d),
                    None => Edge::Unreadable,
                };
                self.list[at].edge = edge;
                proof {
                    assert(self@ =~= before@);
                    assert forall|i: int| 0 <= i < self.list@.len() && i != at implies self.list@[i]
                        == before.list@[i] by {}
                    assert forall|c: Contents| #[trigger]
                        before.agrees(source_root@, c) && hashes.agrees(c) implies self.agrees(
                        source_root@,
                        c,
                    ) by {
                        assert((c.edge)(path@, size as nat) == digest_view(d));
                        assert forall|i: int| 0 <= i < self.list@.len() implies edge_agrees(
                            #[trigger] self.list@[i],
                            source_root@,
                            c,
                        ) by {
                            if i != at {
                                assert(edge_agrees(before.list@[i], source_root@, c));
                            }
                        }
                    }
                    assert forall|other: u64|
                        #![trigger self.by_size@.dom().contains(other)]
                        if self.by_size@.dom().contains(other) {
                            places_of(self.list@, other, self.by_size@[other]@)
                        } else {
                            places_of(self.list@, other, seq![])
                        } by {
                        let v = if before.by_size@.dom().contains(other) {
                            before.by_size@[other]@
                        } else {
                            seq![]
                        };
                        assert(places_of(before.list@, other, v));
                        assert forall|i: int|
                            0 <= i < self.list@.len() && (#[trigger] self.list@[i]).size
                                == other implies v.contains(i as usize) by {
                            assert(before.list@[i].size == other);
                        }
                    }
                }
                None
            },
        }
    }
}

fn copy_places(v: &Vec<usize>) -> (r: Vec<usize>)
    ensures
        r@ == v@,
{
    let mut r: Vec<usize> = Vec::new();
    let mut i: usize = 0;
    while i < v.len()
        invariant
            i <= v@.len(),
            r@ == v@.take(i as int),
        decreases v@.len() - i,
    {
        r.push(v[i]);
        assert(v@.take(i + 1) =~= v@.take(i as int).push(v@[i as int]));
        i += 1;
    }
    assert(v@.take(i as int) =~= v@);
    r
}

pub open spec fn index_view(i: Option<usize>) -> Option<int> {
    match i {
        Some(i) => Some(i as int),
        None => None,
    }
}

/// What the places of a size say of the first twin: those before the `k`th are
/// none, and the `k`th is one or there is no `k`th.
proof fn lemma_found(
    c: Contents,
    root: Seq<char>,
    list: Seq<Twin>,
    abs: Seq<char>,
    size: u64,
    places: Seq<usize>,
    k: int,
)
    requires
        list.len() <= usize::MAX,
        places_of(list, size, places),
        0 <= k <= places.len(),
        forall|j: int|
            0 <= j < k ==> !is_twin(c, root, list[(#[trigger] places[j]) as int]@, abs, size),
        k < places.len() ==> is_twin(c, root, list[places[k] as int]@, abs, size),
    ensures
        first_twin(c, root, twin_views(list), abs, size, 0) == (if k < places.len() {
            Some(places[k] as int)
        } else {
            None::<int>
        }),
{
    let views = twin_views(list);
    let at: int = if k < places.len() {
        places[k] as int
    } else {
        list.len() as int
    };
    assert forall|i: int| 0 <= i < at implies !is_twin(c, root, #[trigger] views[i], abs, size) by {
        assert(views[i] == list[i]@);
        if list[i].size == size {
            assert(places.contains(i as usize));
            let j = choose|j: int| 0 <= j < places.len() && places[j] == i as usize;
            assert(j < k) by {
                if k < places.len() && j > k {
                    assert(places[k] < places[j]);
                }
            }
            assert(!is_twin(c, root, list[places[j] as int]@, abs, size));
        }
    }
    lemma_first_twin(c, root, views, abs, size, 0, at);
}

impl Twins {
    /// The first remembered twin holding identical bytes.
    ///
    /// "First" is insertion order. An error is the first question whose answer is
    /// not remembered.
    pub fn find(&mut self, hashes: &HashCache, source_root: &str, abs: &str, size: u64) -> (r: Result<
        Option<usize>,
        HashQuery,
    >)
        requires
            old(self).wf(),
        ensures
            final(self).wf(),
            final(self)@ == old(self)@,
            forall|c: Contents| #[trigger]
                old(self).agrees(source_root@, c) && hashes.agrees(c) ==> final(self).agrees(
                    source_root@,
                    c,
                ),
            match r {
                Ok(found) => {
                    &&& found matches Some(i) ==> i < final(self)@.len()
                    &&& forall|c: Contents| #[trigger]
                        old(self).agrees(source_root@, c) && hashes.agrees(c) ==> first_twin(
                            c,
                            source_root@,
                            old(self)@,
                            abs@,
                            size,
                            0,
                        ) == index_view(found)
                },
                Err(q) => !hashes.knows(q) && asks_of_twins(
                    q,
                    source_root@,
                    old(self)@,
                    abs@,
                    size,
                ),
            },
    {
        let ghost before = *self;
        let ghost root = source_root@;
        let total = self.list.len();
        assert(before.by_size@.dom().contains(size) || !before.by_size@.dom().contains(size));
        let places = match self.by_size.get(&size) {
            Some(v) => copy_places(v),
            None => {
                proof {
                    assert forall|c: Contents| #[trigger]
                        before.agrees(root, c) && hashes.agrees(c) implies first_twin(
                        c,
                        root,
                        before@,
                        abs@,
                        size,
                        0,
                    ) == None::<int> by {
                        lemma_found(c, root, before.list@, abs@, size, seq![], 0);
                    }
                }
                return Ok(None);
            },
        };
        if places.len() == 0 {
            proof {
                assert forall|c: Contents| #[trigger]
                    before.agrees(root, c) && hashes.agrees(c) implies first_twin(
                    c,
                    root,
                    before@,
                    abs@,
                    size,
                    0,
                ) == None::<int> by {
                    lemma_found(c, root, before.list@, abs@, size, places@, 0);
                }
            }
            return Ok(None);
        }
        assert(places@[0] < before.list@.len());
        assert(before@[places@[0] as int] == before.list@[places@[0] as int]@);
        let mine = match hashes.partial(abs, size) {
            None => {
                return Err(HashQuery::Partial { path: abs.to_owned(), size });
            },
            Some(d) => d,
        };
        let mine = match mine {
            None => {
                proof {
                    assert forall|c: Contents| #[trigger]
                        before.agrees(root, c) && hashes.agrees(c) implies first_twin(
                        c,
                        root,
                        before@,
                        abs@,
                        size,
                        0,
                    ) == None::<int> by {
                        assert((c.edge)(abs@, size as nat) is None);
                        lemma_first_twin(c, root, before@, abs@, size, 0, before@.len() as int);
                    }
                }
                return Ok(None);
            },
            Some(d) => d,
        };
        let mut k: usize = 0;
        while k < places.len()
            invariant
                before == *old(self),
                self.wf(),
                self@ == before@,
                self.list@.len() == before.list@.len(),
                places_of(self.list@, size, places@),
                forall|c: Contents| #[trigger]
                    before.agrees(root, c) && hashes.agrees(c) ==> self.agrees(root, c),
                root == source_root@,
                k <= places@.len(),
                forall|j: int|
                    0 <= j < k ==> !(self.list@[(#[trigger] places@[j]) as int].edge is Unknown),
            decreases places@.len() - k,
        {
            let ghost list = self.list@;
            assert(places@[k as int] < list.len());
            let asked = self.sample(hashes, source_root, places[k]);
            if let Some(q) = asked {
                assert(before@[places@[k as int] as int] == list[places@[k as int] as int]@);
                return Err(q);
            }
            proof {
                assert forall|i: int|
                    0 <= i < self.list@.len() && (#[trigger] self.list@[i]).size
                        == size implies places@.contains(i as usize) by {
                    assert(list[i].size == size);
                }
                assert forall|j: int| 0 <= j < k + 1 implies !(self.list@[(
                #[trigger] places@[j]) as int].edge is Unknown) by {
                    if j < k {
                        assert(places@[j] < places@[k as int]);
                        assert(self.list@[places@[j] as int] == list[places@[j] as int]);
                    }
                }
            }
            k += 1;
        }
        // Everything in this bucket has its edge hash, so only the full
        // comparison of those that agree is left.
        k = 0;
        while k < places.len()
            invariant
                before == *old(self),
                self.wf(),
                self@ == before@,
                self.list@.len() == before.list@.len(),
                total == before.list@.len(),
                places_of(self.list@, size, places@),
                forall|c: Contents| #[trigger]
                    before.agrees(root, c) && hashes.agrees(c) ==> self.agrees(root, c),
                forall|c: Contents|
                    hashes.agrees(c) ==> #[trigger] (c.edge)(abs@, size as nat) == Some(mine@),
                root == source_root@,
                k <= places@.len(),
                forall|j: int|
                    0 <= j < places@.len() ==> !(self.list@[(
                    #[trigger] places@[j]) as int].edge is Unknown),
                forall|c: Contents, j: int|
                    before.agrees(root, c) && hashes.agrees(c) && 0 <= j < k ==> !#[trigger] is_twin(
                        c,
                        root,
                        self.list@[places@[j] as int]@,
                        abs@,
                        size,
                    ),
            decreases places@.len() - k,
        {
            let at = places[k];
            assert(places@[k as int] < self.list@.len());
            let ghost twin = self.list@[at as int];
            let candidate = match self.list[at].edge {
                Edge::Known(d) => same_digest(&d, &mine),
                _ => false,
            };
            if candidate {
                let other = join(source_root, self.list[at].source_rel.as_str());
                match hashes.same_bytes_after_partial(abs, other.as_str(), size) {
                    Err(q) => {
                        assert(before@[at as int] == twin@);
                        return Err(q);
                    },
                    Ok(same) => {
                        proof {
                            assert forall|c: Contents| #[trigger]
                                before.agrees(root, c) && hashes.agrees(c) implies same == is_twin(
                                c,
                                root,
                                twin@,
                                abs@,
                                size,
                            ) by {
                                assert(self.agrees(root, c));
                                assert(edge_agrees(self.list@[at as int], root, c));
                                assert((c.edge)(abs@, size as nat) == Some(mine@));
                            }
                        }
                        if same {
                            proof {
                                assert forall|c: Contents| #[trigger]
                                    before.agrees(root, c) && hashes.agrees(c) implies first_twin(
                                    c,
                                    root,
                                    before@,
                                    abs@,
                                    size,
                                    0,
                                ) == Some(at as int) by {
                                    lemma_found(
                                        c,
                                        root,
                                        self.list@,
                                        abs@,
                                        size,
                                        places@,
                                        k as int,
                                    );
                                }
                            }
                            return Ok(Some(at));
                        }
                    },
                }
            } else {
                proof {
                    assert forall|c: Contents| #[trigger]
                        before.agrees(root, c) && hashes.agrees(c) implies !is_twin(
                        c,
                        root,
                        twin@,
                        abs@,
                        size,
                    ) by {
                        assert(self.agrees(root, c));
                        assert(edge_agrees(self.list@[at as int], root, c));
                        assert((c.edge)(abs@, size as nat) == Some(mine@));
                    }
                }
            }
            k += 1;
        }
        proof {
            assert forall|c: Contents| #[trigger]
                before.agrees(root, c) && hashes.agrees(c) implies first_twin(
                c,
                root,
                before@,
                abs@,
                size,
                0,
            ) == None::<int> by {
                lemma_found(c, root, self.list@, abs@, size, places@, k as int);
            }
        }
        Ok(None)
    }
}

proof fn lemma_places_push(
    before: Seq<Twin>,
    after: Seq<Twin>,
    size: u64,
    v: Seq<usize>,
    u: Seq<usize>,
)
    requires
        places_of(before, size, v),
        before.len() <= usize::MAX,
        after.len() == before.len() + 1,
        forall|i: int| 0 <= i < before.len() ==> #[trigger] after[i] == before[i],
        after.last().size == size,
        u == v.push(before.len() as usize),
    ensures
        places_of(after, size, u),
{
    assert forall|i: int| 0 <= i < after.len() && (#[trigger] after[i]).size == size implies u.contains(
        i as usize,
    ) by {
        if i < before.len() {
            assert(after[i] == before[i]);
            assert(v.contains(i as usize));
            let k = choose|k: int| 0 <= k < v.len() && v[k] == i as usize;
            assert(u[k] == i as usize);
        } else {
            assert(u[v.len() as int] == i as usize);
        }
    }
}

impl Twins {
    /// Where a remembered file came from, and where it went.
    pub fn at(&self, i: usize) -> (r: (&str, &Option<String>))
        requires
            i < self@.len(),
        ensures
            r.0@ == self@[i as int].source,
            text_view(*r.1) == self@[i as int].dest,
    {
        let twin = &self.list[i];
        assert(self@[i as int] == twin@);
        (twin.source_rel.as_str(), &twin.dest_rel)
    }
}

} // verus!
