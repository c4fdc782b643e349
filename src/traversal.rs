//! The traversal engine: a worklist of canonical candidate paths that yields
//! each non-excluded regular file once, and feeds the admitted entries of each
//! non-excluded directory back into the worklist.
//!
//! The engine makes no filesystem call. Each step hands the caller a candidate
//! path; the caller looks at the filesystem and answers with an [`Entry`].
use vstd::prelude::*;
use crate::opts::string_views;

verus! {

/// One entry of a directory listing.
pub struct Child {
    /// The entry's canonical path.
    pub path: String,
    /// The entry's own name in the directory.
    pub name: String,
    /// Whether the entry is a regular file.
    pub is_file: bool,
    /// Whether the entry is a directory.
    pub is_dir: bool,
}

/// What the filesystem holds at a candidate path.
pub enum Entry {
    /// A regular file.
    File,
    /// A directory, with the entries that could be read from it; a directory
    /// that could not be listed has none.
    Dir(Vec<Child>),
    /// Nothing, or something that is neither a regular file nor a directory.
    Other,
}

/// The outcome of classifying a candidate.
pub enum Found {
    /// A non-excluded regular file, produced once.
    File(String),
    /// A non-excluded directory, whose admitted entries joined the worklist.
    Dir(String),
}

/// A name with the source extension: it ends in `.v` after at least one
/// other character.
pub open spec fn has_source_extension(name: Seq<char>) -> bool {
    name.len() >= 3 && name[name.len() - 2] == '.' && name[name.len() - 1] == 'v'
}

/// A directory entry joins the worklist when it is a directory, or a regular
/// file with the source extension; any other entry is left out.
pub open spec fn admitted(c: Child) -> bool {
    c.is_dir || (c.is_file && has_source_extension(c.name@))
}

/// The paths of the admitted entries of a listing.
pub open spec fn admitted_paths(cs: Seq<Child>) -> Set<Seq<char>> {
    Set::new(|p: Seq<char>| exists|i: int| 0 <= i < cs.len() && admitted(cs[i]) && cs[i].path@ == p)
}

/// The abstract state of a [`Traversal`].
pub struct TraversalView {
    /// Candidates awaiting classification; the last is taken first.
    pub pending: Seq<Seq<char>>,
    /// Every path that ever joined the worklist.
    pub seen: Set<Seq<char>>,
    /// The candidates the traversal started from.
    pub roots: Set<Seq<char>>,
    /// The excluded paths.
    pub excludes: Set<Seq<char>>,
    /// The candidate handed out and not yet classified.
    pub current: Option<Seq<char>>,
    /// The files produced so far.
    pub emitted: Set<Seq<char>>,
    /// The directories expanded so far.
    pub expanded: Set<Seq<char>>,
    /// The candidates found to be neither a regular file nor a directory.
    pub dropped: Set<Seq<char>>,
    /// For each path that joined from a listing, the directory listed.
    pub parent: Map<Seq<char>, Seq<char>>,
    /// For each expanded directory, the admitted paths of its listing.
    pub listed: Map<Seq<char>, Set<Seq<char>>>,
}

impl TraversalView {
    /// The invariant of every reachable state.
    pub open spec fn inv(self) -> bool {
        &&& self.pending.no_duplicates()
        &&& forall|p: Seq<char>| #[trigger]
            self.pending.contains(p) ==> {
                &&& self.seen.contains(p)
                &&& !self.emitted.contains(p)
                &&& !self.expanded.contains(p)
                &&& self.current != Some(p)
            }
        &&& self.current matches Some(c) ==> {
            &&& self.seen.contains(c)
            &&& !self.excludes.contains(c)
            &&& !self.emitted.contains(c)
            &&& !self.expanded.contains(c)
        }
        &&& self.emitted.subset_of(self.seen)
        &&& self.expanded.subset_of(self.seen)
        &&& self.emitted.disjoint(self.excludes)
        &&& self.expanded.disjoint(self.excludes)
        &&& self.emitted.disjoint(self.expanded)
        &&& forall|p: Seq<char>| #[trigger]
            self.seen.contains(p) ==> {
                ||| self.pending.contains(p)
                ||| self.current == Some(p)
                ||| self.emitted.contains(p)
                ||| self.expanded.contains(p)
                ||| self.dropped.contains(p)
                ||| self.excludes.contains(p)
            }
        &&& forall|p: Seq<char>| #[trigger]
            self.parent.dom().contains(p) ==> {
                &&& self.seen.contains(p)
                &&& self.expanded.contains(self.parent[p])
                &&& self.listed.dom().contains(self.parent[p])
                &&& self.listed[self.parent[p]].contains(p)
            }
        &&& self.roots.subset_of(self.seen)
        &&& forall|p: Seq<char>| #[trigger]
            self.seen.contains(p) ==> self.roots.contains(p) || self.parent.dom().contains(p)
        &&& forall|d: Seq<char>| #[trigger]
            self.listed.dom().contains(d) ==> self.expanded.contains(d)
                && self.listed[d].subset_of(self.seen)
    }
}

/// A single-pass traversal over canonical paths.
pub struct Traversal {
    pending: Vec<String>,
    seen: Vec<String>,
    excludes: Vec<String>,
    current: Option<String>,
    emitted: Ghost<Set<Seq<char>>>,
    expanded: Ghost<Set<Seq<char>>>,
    dropped: Ghost<Set<Seq<char>>>,
    roots: Ghost<Set<Seq<char>>>,
    parent: Ghost<Map<Seq<char>, Seq<char>>>,
    listed: Ghost<Map<Seq<char>, Set<Seq<char>>>>,
}

impl View for Traversal {
    type V = TraversalView;

    closed spec fn view(&self) -> TraversalView {
        TraversalView {
            pending: string_views(self.pending@),
            seen: string_views(self.seen@).to_set(),
            excludes: string_views(self.excludes@).to_set(),
            current: match self.current {
                Some(c) => Some(c@),
                None => None,
            },
            emitted: self.emitted@,
            expanded: self.expanded@,
            dropped: self.dropped@,
            roots: self.roots@,
            parent: self.parent@,
            listed: self.listed@,
        }
    }
}

/// Whether `p` is among `v`.
fn contains_path(v: &Vec<String>, p: &String) -> (r: bool)
    ensures
        r == string_views(v@).contains(p@),
{
    let mut i: usize = 0;
    while i < v.len()
        invariant
            0 <= i <= v@.len(),
            forall|j: int| 0 <= j < i ==> v@[j]@ != p@,
        decreases v@.len() - i,
    {
        if v[i] == *p {
            assert(string_views(v@)[i as int] == p@);
            return true;
        }
        i = i + 1;
    }
    proof {
        if string_views(v@).contains(p@) {
            let k = choose|k: int| 0 <= k < v@.len() && string_views(v@)[k] == p@;
            assert(v@[k]@ == p@);
        }
    }
    false
}

/// Whether a name has the source extension.
pub fn is_source_name(name: &str) -> (r: bool)
    ensures
        r == has_source_extension(name@),
{
    let n = name.unicode_len();
    n >= 3 && name.get_char(n - 2) == '.' && name.get_char(n - 1) == 'v'
}

/// Whether a directory entry joins the worklist.
pub fn is_admitted(c: &Child) -> (r: bool)
    ensures
        r == admitted(*c),
{
    c.is_dir || (c.is_file && is_source_name(c.name.as_str()))
}

/// The admitted paths of a listing grow one entry at a time.
proof fn lemma_admitted_paths_step(cs: Seq<Child>, i: int)
    requires
        0 <= i < cs.len(),
    ensures
        admitted_paths(cs.take(i + 1)) == (if admitted(cs[i]) {
            admitted_paths(cs.take(i)).insert(cs[i].path@)
        } else {
            admitted_paths(cs.take(i))
        }),
{
    let a = cs.take(i);
    let b = cs.take(i + 1);
    assert forall|p: Seq<char>| #[trigger] admitted_paths(b).contains(p) implies (if admitted(
        cs[i],
    ) {
        admitted_paths(a).insert(cs[i].path@)
    } else {
        admitted_paths(a)
    }).contains(p) by {
        let k = choose|k: int| 0 <= k < b.len() && admitted(b[k]) && b[k].path@ == p;
        if k < i {
            assert(a[k] == b[k]);
        }
    }
    assert forall|p: Seq<char>| #[trigger] admitted_paths(a).contains(p) implies admitted_paths(
        b,
    ).contains(p) by {
        let k = choose|k: int| 0 <= k < a.len() && admitted(a[k]) && a[k].path@ == p;
        assert(b[k] == a[k]);
    }
    if admitted(cs[i]) {
        assert(b[i] == cs[i]);
        assert(admitted_paths(b).contains(cs[i].path@));
    }
    assert(admitted_paths(b) =~= (if admitted(cs[i]) {
        admitted_paths(a).insert(cs[i].path@)
    } else {
        admitted_paths(a)
    }));
}

/// Appending a string appends its view.
proof fn lemma_views_push(v: Seq<String>, x: String)
    ensures
        string_views(v.push(x)) == string_views(v).push(x@),
{
    assert(string_views(v.push(x)) =~= string_views(v).push(x@));
}

impl Traversal {
    /// The state is one that the traversal can reach.
    pub open spec fn wf(&self) -> bool {
        self@.inv()
    }

    /// A traversal of `candidates`, each taken once, that skips `excludes`.
    pub fn new(candidates: Vec<String>, excludes: Vec<String>) -> (r: Self)
        ensures
            r.wf(),
            r@.pending.to_set() == string_views(candidates@).to_set(),
            r@.seen == string_views(candidates@).to_set(),
            r@.roots == string_views(candidates@).to_set(),
            r@.excludes == string_views(excludes@).to_set(),
            r@.current is None,
            r@.emitted == Set::<Seq<char>>::empty(),
            r@.expanded == Set::<Seq<char>>::empty(),
            r@.dropped == Set::<Seq<char>>::empty(),
            r@.parent == Map::<Seq<char>, Seq<char>>::empty(),
            r@.listed == Map::<Seq<char>, Set<Seq<char>>>::empty(),
    {
        let mut pending: Vec<String> = Vec::new();
        let mut seen: Vec<String> = Vec::new();
        let mut i: usize = 0;
        while i < candidates.len()
            invariant
                0 <= i <= candidates@.len(),
                string_views(pending@) == string_views(seen@),
                string_views(pending@).no_duplicates(),
                string_views(seen@).to_set() == string_views(candidates@.take(i as int)).to_set(),
            decreases candidates@.len() - i,
        {
            let ghost before = candidates@.take(i as int);
            proof {
                assert(candidates@.take(i + 1) =~= before.push(candidates@[i as int]));
                lemma_views_push(before, candidates@[i as int]);
                string_views(before).lemma_push_to_set_commute(candidates@[i as int]@);
            }
            if !contains_path(&seen, &candidates[i]) {
                let ghost old_seen = seen@;
                let ghost old_pending = pending@;
                pending.push(candidates[i].clone());
                seen.push(candidates[i].clone());
                proof {
                    lemma_views_push(old_seen, candidates@[i as int]);
                    lemma_views_push(old_pending, candidates@[i as int]);
                    string_views(old_seen).lemma_push_to_set_commute(candidates@[i as int]@);
                    assert(string_views(pending@).no_duplicates()) by {
                        assert forall|a: int, b: int|
                            0 <= a < b < string_views(pending@).len() implies string_views(
                            pending@,
                        )[a] != string_views(pending@)[b] by {
                            if b == old_pending.len() {
                                assert(string_views(old_seen).contains(string_views(pending@)[a]));
                            }
                        }
                    }
                }
            } else {
                proof {
                    assert(string_views(before).push(candidates@[i as int]@).to_set()
                        =~= string_views(before).to_set());
                }
            }
            i = i + 1;
        }
        proof {
            assert(candidates@.take(candidates@.len() as int) =~= candidates@);
        }
        let r = Traversal {
            pending,
            seen,
            excludes,
            current: None,
            emitted: Ghost(Set::empty()),
            expanded: Ghost(Set::empty()),
            dropped: Ghost(Set::empty()),
            roots: Ghost(string_views(seen@).to_set()),
            parent: Ghost(Map::empty()),
            listed: Ghost(Map::empty()),
        };
        proof {
            assert forall|p: Seq<char>| #[trigger] r@.pending.contains(p) implies r@.seen.contains(p) by {
            }
        }
        r
    }

    /// Hands out the next candidate to classify: the one still unclassified,
    /// if any; else the last pending path that is not excluded, after dropping
    /// the excluded ones behind it. `None` when no candidate is left.
    pub fn next_candidate(&mut self) -> (r: Option<String>)
        requires
            old(self).wf(),
        ensures
            final(self).wf(),
            final(self)@.seen == old(self)@.seen,
            final(self)@.excludes == old(self)@.excludes,
            final(self)@.emitted == old(self)@.emitted,
            final(self)@.expanded == old(self)@.expanded,
            final(self)@.dropped == old(self)@.dropped,
            final(self)@.parent == old(self)@.parent,
            final(self)@.roots == old(self)@.roots,
            final(self)@.listed == old(self)@.listed,
            old(self)@.current matches Some(c) ==> {
                &&& r matches Some(p) && p@ == c
                &&& final(self)@ == old(self)@
            },
            old(self)@.current is None ==> {
                let k = final(self)@.pending.len();
                &&& k <= old(self)@.pending.len()
                &&& final(self)@.pending == old(self)@.pending.take(k as int)
                &&& match r {
                    Some(p) => {
                        &&& k < old(self)@.pending.len()
                        &&& p@ == old(self)@.pending[k as int]
                        &&& !old(self)@.excludes.contains(p@)
                        &&& final(self)@.current == Some(p@)
                        &&& forall|j: int|
                            k < j < old(self)@.pending.len() ==> old(self)@.excludes.contains(
                                #[trigger] old(self)@.pending[j],
                            )
                    },
                    None => {
                        &&& k == 0
                        &&& final(self)@.current is None
                        &&& forall|j: int|
                            0 <= j < old(self)@.pending.len() ==> old(self)@.excludes.contains(
                                #[trigger] old(self)@.pending[j],
                            )
                    },
                }
            },
    {
        if let Some(c) = &self.current {
            return Some(c.clone());
        }
        let ghost start = self@;
        loop
            invariant
                start == old(self)@,
                start.current is None,
                self.wf(),
                self@.current is None,
                self@.seen == start.seen,
                self@.excludes == start.excludes,
                self@.emitted == start.emitted,
                self@.expanded == start.expanded,
                self@.dropped == start.dropped,
                self@.parent == start.parent,
                self@.roots == start.roots,
                self@.listed == start.listed,
                self@.pending.len() <= start.pending.len(),
                self@.pending == start.pending.take(self@.pending.len() as int),
                forall|j: int|
                    self@.pending.len() <= j < start.pending.len() ==> start.excludes.contains(
                        #[trigger] start.pending[j],
                    ),
            decreases self@.pending.len(),
        {
            let ghost before = self@;
            let ghost before_vec = self.pending@;
            match self.pending.pop() {
                None => {
                    return None;
                },
                Some(p) => {
                    proof {
                        assert(before_vec =~= self.pending@.push(p));
                        lemma_views_push(self.pending@, p);
                        assert(self@.pending =~= before.pending.drop_last());
                        assert(before.pending.last() == p@);
                        assert forall|q: Seq<char>| #[trigger]
                            self@.pending.contains(q) implies before.pending.contains(q) by {
                            let k = choose|k: int| 0 <= k < self@.pending.len() && self@.pending[k] == q;
                            assert(before.pending[k] == q);
                        }
                    }
                    if !contains_path(&self.excludes, &p) {
                        proof {
                            assert(before.pending.contains(p@));
                            assert forall|q: Seq<char>| #[trigger]
                                self@.pending.contains(q) implies q != p@ by {
                                let k = choose|k: int| 0 <= k < self@.pending.len() && self@.pending[k] == q;
                                assert(before.pending[k] == q);
                                assert(before.pending[before.pending.len() - 1] == p@);
                            }
                        }
                        self.current = Some(p.clone());
                        return Some(p);
                    }
                },
            }
        }
    }

    /// Classifies the candidate handed out by `next_candidate`, with what the
    /// filesystem holds at its path. A regular file is produced; a directory
    /// is expanded: each admitted entry not seen before joins the worklist.
    /// Without a candidate handed out nothing changes.
    pub fn classify(&mut self, entry: Entry) -> (r: Option<Found>)
        requires
            old(self).wf(),
        ensures
            final(self).wf(),
            final(self)@.excludes == old(self)@.excludes,
            final(self)@.current is None,
            old(self)@.current is None ==> r is None && final(self)@ == old(self)@,
            old(self)@.current matches Some(c) ==> match entry {
                Entry::File => {
                    &&& r matches Some(Found::File(p)) && p@ == c
                    &&& !old(self)@.emitted.contains(c)
                    &&& final(self)@ == (TraversalView {
                        current: None,
                        emitted: old(self)@.emitted.insert(c),
                        ..old(self)@
                    })
                },
                Entry::Other => {
                    &&& r is None
                    &&& final(self)@ == (TraversalView {
                        current: None,
                        dropped: old(self)@.dropped.insert(c),
                        ..old(self)@
                    })
                },
                Entry::Dir(children) => {
                    &&& r matches Some(Found::Dir(p)) && p@ == c
                    &&& !old(self)@.expanded.contains(c)
                    &&& !old(self)@.excludes.contains(c)
                    &&& final(self)@.expanded == old(self)@.expanded.insert(c)
                    &&& final(self)@.emitted == old(self)@.emitted
                    &&& final(self)@.dropped == old(self)@.dropped
                    &&& final(self)@.roots == old(self)@.roots
                    &&& final(self)@.listed == old(self)@.listed.insert(c, admitted_paths(children@))
                    &&& final(self)@.seen == old(self)@.seen + admitted_paths(children@)
                    &&& final(self)@.pending.len() >= old(self)@.pending.len()
                    &&& final(self)@.pending.take(old(self)@.pending.len() as int)
                        == old(self)@.pending
                    &&& final(self)@.pending.to_set() == old(self)@.pending.to_set() + (
                    admitted_paths(children@) - old(self)@.seen)
                    &&& final(self)@.parent == old(self)@.parent.union_prefer_right(
                        Map::new(
                            |p: Seq<char>|
                                admitted_paths(children@).contains(p) && !old(
                                    self,
                                )@.seen.contains(p),
                            |p: Seq<char>| c,
                        ),
                    )
                },
            },
    {
        let c = match &self.current {
            None => {
                return None;
            },
            Some(c) => c.clone(),
        };
        let ghost o = self@;
        self.current = None;
        match entry {
            Entry::File => {
                self.emitted = Ghost(self.emitted@.insert(c@));
                proof {
                    assert forall|p: Seq<char>| #[trigger]
                        self@.pending.contains(p) implies !self@.emitted.contains(p) by {
                        assert(o.pending.contains(p));
                    }
                    assert forall|p: Seq<char>| #[trigger] self@.seen.contains(p) implies {
                        ||| self@.pending.contains(p)
                        ||| self@.emitted.contains(p)
                        ||| self@.expanded.contains(p)
                        ||| self@.dropped.contains(p)
                        ||| self@.excludes.contains(p)
                    } by {
                        assert(o.seen.contains(p));
                    }
                }
                Some(Found::File(c))
            },
            Entry::Other => {
                self.dropped = Ghost(self.dropped@.insert(c@));
                proof {
                    assert forall|p: Seq<char>| #[trigger] self@.seen.contains(p) implies {
                        ||| self@.pending.contains(p)
                        ||| self@.emitted.contains(p)
                        ||| self@.expanded.contains(p)
                        ||| self@.dropped.contains(p)
                        ||| self@.excludes.contains(p)
                    } by {
                        assert(o.seen.contains(p));
                    }
                }
                None
            },
            Entry::Dir(children) => {
                self.expanded = Ghost(self.expanded@.insert(c@));
                let mut i: usize = 0;
                proof {
                    assert(admitted_paths(children@.take(0)) =~= Set::empty());
                    assert(self@.seen =~= o.seen + admitted_paths(children@.take(0)));
                    assert(self@.pending.take(o.pending.len() as int) =~= o.pending);
                    assert(self@.pending.to_set() =~= o.pending.to_set() + (admitted_paths(
                        children@.take(0),
                    ) - o.seen));
                    assert(self.parent@ =~= o.parent.union_prefer_right(
                        Map::new(
                            |p: Seq<char>|
                                admitted_paths(children@.take(0)).contains(p) && !o.seen.contains(
                                    p,
                                ),
                            |p: Seq<char>| c@,
                        ),
                    ));
                }
                while i < children.len()
                    invariant
                        o == old(self)@,
                        o.inv(),
                        o.current == Some(c@),
                        0 <= i <= children@.len(),
                        self@.excludes == o.excludes,
                        self@.current is None,
                        self@.emitted == o.emitted,
                        self@.dropped == o.dropped,
                        self@.roots == o.roots,
                        self@.listed == o.listed,
                        self@.expanded == o.expanded.insert(c@),
                        self@.seen == o.seen + admitted_paths(children@.take(i as int)),
                        self@.pending.len() >= o.pending.len(),
                        self@.pending.take(o.pending.len() as int) == o.pending,
                        self@.pending.to_set() == o.pending.to_set() + (admitted_paths(
                            children@.take(i as int),
                        ) - o.seen),
                        self@.pending.no_duplicates(),
                        forall|p: Seq<char>| #[trigger]
                            self@.pending.contains(p) ==> self@.seen.contains(p),
                        self@.parent == o.parent.union_prefer_right(
                            Map::new(
                                |p: Seq<char>|
                                    admitted_paths(children@.take(i as int)).contains(p)
                                        && !o.seen.contains(p),
                                |p: Seq<char>| c@,
                            ),
                        ),
                    decreases children@.len() - i,
                {
                    proof {
                        lemma_admitted_paths_step(children@, i as int);
                    }
                    let child = &children[i];
                    let adm = is_admitted(child);
                    let fresh = adm && !contains_path(&self.seen, &child.path);
                    if fresh {
                        let ghost before = self@;
                        let ghost old_pending = self.pending@;
                        let ghost old_seen = self.seen@;
                        self.pending.push(child.path.clone());
                        self.seen.push(child.path.clone());
                        self.parent = Ghost(self.parent@.insert(child.path@, c@));
                        proof {
                            lemma_views_push(old_pending, child.path);
                            lemma_views_push(old_seen, child.path);
                            string_views(old_seen).lemma_push_to_set_commute(child.path@);
                            string_views(old_pending).lemma_push_to_set_commute(child.path@);
                            assert(self@.seen =~= o.seen + admitted_paths(
                                children@.take(i + 1),
                            ));
                            assert(!string_views(old_seen).contains(child.path@));
                            assert(!before.seen.contains(child.path@));
                            assert(!o.seen.contains(child.path@));
                            assert(self@.pending.to_set() =~= o.pending.to_set() + (
                            admitted_paths(children@.take(i + 1)) - o.seen));
                            assert(self@.pending.take(o.pending.len() as int) =~= o.pending) by {
                                assert(self@.pending.take(o.pending.len() as int)
                                    =~= before.pending.take(o.pending.len() as int));
                            }
                            assert(self@.pending.no_duplicates()) by {
                                assert forall|a: int, b: int|
                                    0 <= a < b < self@.pending.len() implies self@.pending[a]
                                    != self@.pending[b] by {
                                    if b == before.pending.len() {
                                        assert(before.pending.contains(self@.pending[a]));
                                    }
                                }
                            }
                            assert forall|p: Seq<char>| #[trigger]
                                self@.pending.contains(p) implies self@.seen.contains(p) by {
                                if p != child.path@ {
                                    let k = choose|k: int|
                                        0 <= k < self@.pending.len() && self@.pending[k] == p;
                                    assert(before.pending[k] == p);
                                    assert(before.pending.contains(p));
                                    assert(before.seen.contains(p));
                                } else {
                                    assert(self@.seen.contains(child.path@));
                                }
                            }
                            assert(self@.parent =~= o.parent.union_prefer_right(
                                Map::new(
                                    |p: Seq<char>|
                                        admitted_paths(children@.take(i + 1)).contains(p)
                                            && !o.seen.contains(p),
                                    |p: Seq<char>| c@,
                                ),
                            ));
                        }
                    } else {
                        proof {
                            if adm {
                                assert(string_views(self.seen@).contains(child.path@));
                                assert(self@.seen.contains(child.path@));
                            }
                            assert(self@.seen =~= o.seen + admitted_paths(
                                children@.take(i + 1),
                            ));
                            assert(self@.pending.to_set() =~= o.pending.to_set() + (
                            admitted_paths(children@.take(i + 1)) - o.seen));
                            assert(self@.parent =~= o.parent.union_prefer_right(
                                Map::new(
                                    |p: Seq<char>|
                                        admitted_paths(children@.take(i + 1)).contains(p)
                                            && !o.seen.contains(p),
                                    |p: Seq<char>| c@,
                                ),
                            ));
                        }
                    }
                    i = i + 1;
                }
                self.listed = Ghost(self.listed@.insert(c@, admitted_paths(children@)));
                proof {
                    assert(children@.take(children@.len() as int) =~= children@);
                    assert forall|p: Seq<char>| #[trigger] self@.parent.dom().contains(p) implies {
                        &&& self@.listed.dom().contains(self@.parent[p])
                        &&& self@.listed[self@.parent[p]].contains(p)
                    } by {
                        if o.parent.dom().contains(p) {
                            assert(o.expanded.contains(o.parent[p]));
                        }
                    }
                    assert forall|d: Seq<char>| #[trigger] self@.listed.dom().contains(d) implies {
                        &&& self@.expanded.contains(d)
                        &&& self@.listed[d].subset_of(self@.seen)
                    } by {
                        if d != c@ {
                            assert(o.listed.dom().contains(d));
                        }
                    }
                    assert forall|p: Seq<char>| #[trigger] self@.seen.contains(p) implies self@.roots.contains(p)
                        || self@.parent.dom().contains(p) by {
                        if o.seen.contains(p) {
                            assert(o.roots.contains(p) || o.parent.dom().contains(p));
                        }
                    }
                    assert forall|p: Seq<char>| #[trigger] self@.pending.contains(p) implies {
                        &&& self@.seen.contains(p)
                        &&& !self@.emitted.contains(p)
                        &&& !self@.expanded.contains(p)
                    } by {
                        assert(self@.pending.to_set().contains(p));
                        if o.pending.to_set().contains(p) {
                            assert(o.pending.contains(p));
                        }
                    }
                    assert forall|p: Seq<char>| #[trigger] self@.seen.contains(p) implies {
                        ||| self@.pending.contains(p)
                        ||| self@.emitted.contains(p)
                        ||| self@.expanded.contains(p)
                        ||| self@.dropped.contains(p)
                        ||| self@.excludes.contains(p)
                    } by {
                        if o.seen.contains(p) {
                            if o.pending.contains(p) {
                                let k = choose|k: int| 0 <= k < o.pending.len() && o.pending[k] == p;
                                assert(self@.pending.take(o.pending.len() as int)[k] == p);
                                assert(self@.pending[k] == p);
                            }
                        } else {
                            assert(self@.pending.to_set().contains(p));
                        }
                    }
                }
                Some(Found::Dir(c))
            },
        }
    }
}

/// An excluded path is never produced as a file and never expanded as a
/// directory, so no path joins the worklist from its listing.
pub proof fn lemma_excluded_never_produced(t: &Traversal, e: Seq<char>)
    requires
        t.wf(),
        t@.excludes.contains(e),
    ensures
        !t@.emitted.contains(e),
        !t@.expanded.contains(e),
        forall|p: Seq<char>| #[trigger] t@.parent.dom().contains(p) ==> t@.parent[p] != e,
{
}

/// Once no candidate is left, every path that joined the worklist was
/// produced as a file, expanded as a directory, found to be neither, or
/// excluded: no reachable file is left out.
pub proof fn lemma_finished_traversal_settles_all(t: &Traversal, p: Seq<char>)
    requires
        t.wf(),
        t@.pending.len() == 0,
        t@.current is None,
        t@.seen.contains(p),
    ensures
        t@.emitted.contains(p) || t@.expanded.contains(p) || t@.dropped.contains(p)
            || t@.excludes.contains(p),
{
    if t@.pending.contains(p) {
        let k = choose|k: int| 0 <= k < t@.pending.len() && t@.pending[k] == p;
    }
}

/// `p` joined the worklist through a chain of at most `n + 1` listings, the
/// first of which is the listing of `e`: it was found below `e`.
pub open spec fn joined_below(
    parent: Map<Seq<char>, Seq<char>>,
    p: Seq<char>,
    e: Seq<char>,
    n: nat,
) -> bool
    decreases n,
{
    parent.dom().contains(p) && (parent[p] == e || (n > 0 && joined_below(
        parent,
        parent[p],
        e,
        (n - 1) as nat,
    )))
}

/// Nothing joins the worklist from below an excluded path, at any depth: no
/// descendant of an excluded directory is reached through it.
pub proof fn lemma_nothing_joins_below_excluded(t: &Traversal, e: Seq<char>, p: Seq<char>, n: nat)
    requires
        t.wf(),
        t@.excludes.contains(e),
    ensures
        !joined_below(t@.parent, p, e, n),
    decreases n,
{
    if t@.parent.dom().contains(p) && n > 0 {
        lemma_nothing_joins_below_excluded(t, e, t@.parent[p], (n - 1) as nat);
    }
}

/// A produced file is one of the starting candidates, or an admitted entry
/// of the listing of an expanded directory.
pub proof fn lemma_produced_file_origin(t: &Traversal, p: Seq<char>)
    requires
        t.wf(),
        t@.emitted.contains(p),
    ensures
        t@.roots.contains(p) || {
            &&& t@.parent.dom().contains(p)
            &&& t@.expanded.contains(t@.parent[p])
            &&& t@.listed[t@.parent[p]].contains(p)
        },
{
}

/// Once no candidate is left, every admitted entry of every expanded
/// directory was produced, expanded, dropped or excluded: an entry that was
/// left out, or a directory that listed nothing, stops none of its siblings.
pub proof fn lemma_finished_listing_settled(t: &Traversal, d: Seq<char>, p: Seq<char>)
    requires
        t.wf(),
        t@.pending.len() == 0,
        t@.current is None,
        t@.listed.dom().contains(d),
        t@.listed[d].contains(p),
    ensures
        t@.emitted.contains(p) || t@.expanded.contains(p) || t@.dropped.contains(p)
            || t@.excludes.contains(p),
{
    lemma_finished_traversal_settles_all(t, p);
}

} // verus!
