use vstd::prelude::*;

verus! {

/// Error returned by `insert` and `append` when the offset is already present.
#[derive(Clone, Copy, Debug, PartialEq, Eq, Structural)]
pub struct DuplicateKey;

/// One record of the log, owned by the list's arena. `forward[i]` is the
/// arena index of the next node at level `i`; the vector's length is the
/// node's tower height.
struct Node {
    offset: u64,
    command: String,
    forward: Vec<Option<usize>>,
}

/// An ordered append log backed by a skip list: records are kept sorted by
/// `offset` and linked at several levels, so that search, insert and remove
/// take expected logarithmic time. Nodes live in an arena (`nodes`); a slot
/// becomes `None` when its record is removed. `header[i]` is the first node
/// of the level-`i` chain. `levels` holds, per level, the arena indices of
/// that chain in order; it is ghost bookkeeping for the proofs.
pub struct SkipList {
    nodes: Vec<Option<Node>>,
    header: Vec<Option<usize>>,
    max_level: usize,
    length: u64,
    rng: u64,
    levels: Ghost<Seq<Seq<usize>>>,
}

/// True when offsets are strictly increasing along the record sequence.
pub open spec fn sorted_by_offset(s: Seq<(u64, Seq<char>)>) -> bool {
    forall|k1: int, k2: int|
        0 <= k1 < k2 < s.len() ==> (#[trigger] s[k1]).0 < (#[trigger] s[k2]).0
}

/// True when some record of `s` carries the key `offset`.
pub open spec fn has_key(s: Seq<(u64, Seq<char>)>, offset: u64) -> bool {
    exists|k: int| 0 <= k < s.len() && (#[trigger] s[k]).0 == offset
}

/// The command of the first record of `s` keyed by `offset`, if any.
pub open spec fn lookup(s: Seq<(u64, Seq<char>)>, offset: u64) -> Option<Seq<char>>
    decreases s.len(),
{
    if s.len() == 0 {
        None
    } else if s[0].0 == offset {
        Some(s[0].1)
    } else {
        lookup(s.drop_first(), offset)
    }
}

/// The number of records of `s` whose key is below `offset`: the position at
/// which a record keyed by `offset` belongs in a sorted sequence.
pub open spec fn index_for(s: Seq<(u64, Seq<char>)>, offset: u64) -> int
    decreases s.len(),
{
    if s.len() == 0 {
        0
    } else if s[0].0 < offset {
        1 + index_for(s.drop_first(), offset)
    } else {
        0
    }
}

/// Arena slot `n` holds a record.
spec fn live_in(nodes: Seq<Option<Node>>, n: int) -> bool {
    0 <= n < nodes.len() && nodes[n] is Some
}

spec fn nd_in(nodes: Seq<Option<Node>>, n: int) -> Node {
    nodes[n]->Some_0
}

spec fn off_in(nodes: Seq<Option<Node>>, n: int) -> u64 {
    nd_in(nodes, n).offset
}

/// Tower height of the node in slot `n`: it takes part in chains
/// `0 .. height`.
spec fn height_in(nodes: Seq<Option<Node>>, n: int) -> int {
    nd_in(nodes, n).forward@.len() as int
}

/// The level-`i` link of the node in slot `n`.
spec fn fwd_in(nodes: Seq<Option<Node>>, n: int, i: int) -> Option<usize> {
    nd_in(nodes, n).forward@[i]
}

/// Member `k` of chain `c` at level `i` is a live node tall enough for this
/// level, whose level-`i` link leads to the next member (or nowhere, for the
/// last member).
spec fn entry_ok_in(nodes: Seq<Option<Node>>, i: int, c: Seq<usize>, k: int) -> bool {
    let n = c[k] as int;
    &&& live_in(nodes, n)
    &&& i < height_in(nodes, n)
    &&& fwd_in(nodes, n, i) == (if k + 1 < c.len() {
        Some(c[k + 1])
    } else {
        None::<usize>
    })
}

/// Chain `c` is exactly what the level-`i` links trace out, starting from
/// the header, with strictly increasing offsets.
spec fn chain_ok_in(
    nodes: Seq<Option<Node>>,
    header: Seq<Option<usize>>,
    i: int,
    c: Seq<usize>,
) -> bool {
    &&& header[i] == (if c.len() == 0 {
        None::<usize>
    } else {
        Some(c[0])
    })
    &&& forall|k: int| 0 <= k < c.len() ==> entry_ok_in(nodes, i, c, k)
    &&& forall|k1: int, k2: int|
        0 <= k1 < k2 < c.len() ==> off_in(nodes, c[k1] as int) < off_in(nodes, c[k2] as int)
}

/// Position `p` in the level-`i` chain (`-1` standing for the header) with
/// every member up to `p` keyed below `offset`, and the next member, if any,
/// keyed at or above it: the splice position for `offset` at level `i`.
spec fn is_pred_in(
    nodes: Seq<Option<Node>>,
    levels: Seq<Seq<usize>>,
    i: int,
    p: int,
    offset: u64,
) -> bool {
    let c = levels[i];
    &&& -1 <= p < c.len()
    &&& forall|k: int| 0 <= k <= p ==> off_in(nodes, #[trigger] c[k] as int) < offset
    &&& (p + 1 < c.len() ==> off_in(nodes, c[p + 1] as int) >= offset)
}

/// The link standing at chain position `p` (the header for `-1`).
spec fn pred_link_in(levels: Seq<Seq<usize>>, i: int, p: int) -> Option<usize> {
    if p == -1 {
        None::<usize>
    } else {
        Some(levels[i][p])
    }
}

/// The whole result of a search: per level, a splice position and the
/// matching link.
spec fn search_ok_in(
    nodes: Seq<Option<Node>>,
    levels: Seq<Seq<usize>>,
    offset: u64,
    up: Seq<Option<usize>>,
    gp: Seq<int>,
) -> bool {
    &&& up.len() == levels.len()
    &&& gp.len() == levels.len()
    &&& forall|i: int| 0 <= i < levels.len() ==> is_pred_in(nodes, levels, i, #[trigger] gp[i], offset)
    &&& forall|i: int| 0 <= i < levels.len() ==> up[i] == pred_link_in(levels, i, #[trigger] gp[i])
}

/// In a sorted sequence, a record keyed by `offset` found at position `q` is
/// what `lookup` returns.
proof fn lemma_lookup_found(s: Seq<(u64, Seq<char>)>, offset: u64, q: int)
    requires
        sorted_by_offset(s),
        0 <= q < s.len(),
        s[q].0 == offset,
    ensures
        lookup(s, offset) == Some(s[q].1),
    decreases s.len(),
{
    if q == 0 {
    } else {
        assert(s[0].0 < s[q].0);
        let t = s.drop_first();
        assert forall|k1: int, k2: int|
            0 <= k1 < k2 < t.len() implies (#[trigger] t[k1]).0 < (#[trigger] t[k2]).0 by {
            assert(t[k1] == s[k1 + 1]);
            assert(t[k2] == s[k2 + 1]);
        }
        assert(t[q - 1] == s[q]);
        lemma_lookup_found(t, offset, q - 1);
    }
}

/// When no record of `s` is keyed by `offset`, `lookup` returns nothing.
proof fn lemma_lookup_absent(s: Seq<(u64, Seq<char>)>, offset: u64)
    requires
        forall|k: int| 0 <= k < s.len() ==> (#[trigger] s[k]).0 != offset,
    ensures
        lookup(s, offset) is None,
    decreases s.len(),
{
    if s.len() == 0 {
    } else {
        let t = s.drop_first();
        assert forall|k: int| 0 <= k < t.len() implies (#[trigger] t[k]).0 != offset by {
            assert(t[k] == s[k + 1]);
        }
        lemma_lookup_absent(t, offset);
    }
}

/// `index_for` is pinned down by any splice position: if every record up to
/// `p` is keyed below `offset` and the record after `p`, if any, at or above
/// it, then `index_for` is `p + 1`.
proof fn lemma_index_for_at(s: Seq<(u64, Seq<char>)>, offset: u64, p: int)
    requires
        -1 <= p < s.len(),
        forall|k: int| 0 <= k <= p ==> (#[trigger] s[k]).0 < offset,
        p + 1 < s.len() ==> s[p + 1].0 >= offset,
    ensures
        index_for(s, offset) == p + 1,
    decreases s.len(),
{
    if s.len() == 0 {
    } else if s[0].0 < offset {
        assert(p >= 0) by {
            if p == -1 {
                assert(s[0].0 >= offset);
            }
        }
        let t = s.drop_first();
        assert forall|k: int| 0 <= k <= p - 1 implies (#[trigger] t[k]).0 < offset by {
            assert(t[k] == s[k + 1]);
        }
        assert(p < t.len() ==> t[p] == s[p + 1]);
        lemma_index_for_at(t, offset, p - 1);
    } else {
        assert(p == -1) by {
            if p >= 0 {
                assert(s[0].0 < offset);
            }
        }
    }
}

/// `index_for` points at the first record keyed at or above `offset`:
/// everything before it is keyed below.
proof fn lemma_index_for_bounds(s: Seq<(u64, Seq<char>)>, offset: u64)
    ensures
        0 <= index_for(s, offset) <= s.len(),
        forall|k: int| 0 <= k < index_for(s, offset) ==> (#[trigger] s[k]).0 < offset,
        index_for(s, offset) < s.len() ==> s[index_for(s, offset)].0 >= offset,
    decreases s.len(),
{
    if s.len() == 0 {
    } else if s[0].0 < offset {
        let t = s.drop_first();
        lemma_index_for_bounds(t, offset);
        assert forall|k: int| 0 <= k < index_for(s, offset) implies (#[trigger] s[k]).0
            < offset by {
            if k > 0 {
                assert(t[k - 1] == s[k]);
            }
        }
        if index_for(s, offset) < s.len() {
            assert(t[index_for(t, offset)] == s[index_for(s, offset)]);
        }
    } else {
    }
}

impl View for SkipList {
    type V = Seq<(u64, Seq<char>)>;

    /// The records of the list in offset order: the level-0 chain.
    closed spec fn view(&self) -> Seq<(u64, Seq<char>)> {
        Seq::new(
            self.levels@[0].len(),
            |k: int|
                (
                    off_in(self.nodes@, self.levels@[0][k] as int),
                    nd_in(self.nodes@, self.levels@[0][k] as int).command@,
                ),
        )
    }
}

impl SkipList {
    /// How many chains the list maintains: the ceiling passed at
    /// construction, plus one for level 0.
    pub closed spec fn num_levels(&self) -> int {
        self.header@.len() as int
    }

    /// The chain and arena part of the invariant: every chain is well linked
    /// and sorted; every live node of height `h` appears in exactly the
    /// chains `0 .. h`; `length` counts the level-0 chain.
    spec fn wf_core(&self) -> bool {
        &&& self.header@.len() >= 1
        &&& self.levels@.len() == self.header@.len()
        &&& forall|i: int|
            0 <= i < self.levels@.len() ==> #[trigger] chain_ok_in(
                self.nodes@,
                self.header@,
                i,
                self.levels@[i],
            )
        &&& forall|i: int, n: usize|
            0 <= i < self.levels@.len() && live_in(self.nodes@, n as int) && i < height_in(
                self.nodes@,
                n as int,
            ) ==> #[trigger] self.levels@[i].contains(n)
        &&& forall|n: int|
            #[trigger] live_in(self.nodes@, n) ==> 1 <= height_in(self.nodes@, n)
                <= self.header@.len()
        &&& self.length == self.levels@[0].len()
    }

    /// The list invariant: the chains and the arena are sound, chains above
    /// `max_level` are empty, and `max_level` is occupied when positive.
    pub closed spec fn wf(&self) -> bool {
        &&& self.wf_core()
        &&& (self.max_level as int) < self.header@.len()
        &&& forall|i: int|
            (self.max_level as int) < i < self.levels@.len() ==> (#[trigger] self.levels@[i]).len()
                == 0
        &&& (self.max_level > 0 ==> self.levels@[self.max_level as int].len() > 0)
    }

    /// Order invariant: however the list was built, the records read out in
    /// strictly increasing offset order.
    pub proof fn lemma_sorted(&self)
        requires
            self.wf(),
        ensures
            sorted_by_offset(self@),
    {
        let c = self.levels@[0];
        assert(chain_ok_in(self.nodes@, self.header@, 0, c));
        assert forall|k1: int, k2: int|
            0 <= k1 < k2 < self@.len() implies (#[trigger] self@[k1]).0 < (
        #[trigger] self@[k2]).0 by {
            assert(self@[k1].0 == off_in(self.nodes@, c[k1] as int));
            assert(self@[k2].0 == off_in(self.nodes@, c[k2] as int));
        }
    }

    /// After a search that stopped at position `p` of the level-0 chain with
    /// no exact match just after it, no record carries `offset` at all.
    proof fn lemma_no_key(&self, offset: u64, p: int)
        requires
            self.wf(),
            is_pred_in(self.nodes@, self.levels@, 0, p, offset),
            p + 1 < self.levels@[0].len() ==> off_in(self.nodes@, self.levels@[0][p + 1] as int)
                != offset,
        ensures
            !has_key(self@, offset),
            lookup(self@, offset) is None,
            forall|k: int| 0 <= k < self@.len() ==> (#[trigger] self@[k]).0 != offset,
    {
        let c = self.levels@[0];
        assert(chain_ok_in(self.nodes@, self.header@, 0, c));
        assert forall|k: int| 0 <= k < self@.len() implies (#[trigger] self@[k]).0 != offset by {
            assert(self@[k].0 == off_in(self.nodes@, c[k] as int));
            if k <= p {
            } else if k > p + 1 {
                assert(off_in(self.nodes@, c[p + 1] as int) < off_in(self.nodes@, c[k] as int));
            }
        }
        lemma_lookup_absent(self@, offset);
    }

    /// Creates an empty list with `max_level_ceiling + 1` chains.
    pub fn new_empty(max_level_ceiling: usize) -> (s: SkipList)
        requires
            max_level_ceiling < usize::MAX,
        ensures
            s.wf(),
            s@ == Seq::<(u64, Seq<char>)>::empty(),
            s.num_levels() == max_level_ceiling + 1,
    {
        let n_levels = max_level_ceiling + 1;
        let mut header: Vec<Option<usize>> = Vec::new();
        let mut i: usize = 0;
        while i < n_levels
            invariant
                i <= n_levels,
                header@.len() == i,
                forall|j: int| 0 <= j < i ==> header@[j] is None,
            decreases n_levels - i,
        {
            header.push(None);
            i = i + 1;
        }
        let s = SkipList {
            nodes: Vec::new(),
            header,
            max_level: 0,
            length: 0,
            rng: 0x9e3779b97f4a7c15,
            levels: Ghost(Seq::new(n_levels as nat, |j: int| Seq::<usize>::empty())),
        };
        proof {
            assert(s@ =~= Seq::<(u64, Seq<char>)>::empty());
        }
        s
    }

    /// Reads the link after `u` at level `lvl`.
    fn next_link(&self, u: &Option<usize>, lvl: usize) -> (r: Option<usize>)
        requires
            (lvl as int) < self.num_levels(),
            (*u) matches Some(n) ==> live_in(self.nodes@, n as int) && (lvl as int) < height_in(
                self.nodes@,
                n as int,
            ),
        ensures
            r == (match *u {
                None => self.header@[lvl as int],
                Some(n) => fwd_in(self.nodes@, n as int, lvl as int),
            }),
    {
        match u {
            None => self.header[lvl],
            Some(n) => match &self.nodes[*n] {
                Some(node) => node.forward[lvl],
                None => {
                    proof {
                        assert(false);
                    }
                    None
                },
            },
        }
    }

    /// Reads the offset of the node in slot `n`.
    fn node_offset(&self, n: usize) -> (r: u64)
        requires
            live_in(self.nodes@, n as int),
        ensures
            r == off_in(self.nodes@, n as int),
    {
        match &self.nodes[n] {
            Some(node) => node.offset,
            None => {
                proof {
                    assert(false);
                }
                0
            },
        }
    }

    /// Clones the command of the node in slot `n`.
    fn node_command(&self, n: usize) -> (r: String)
        requires
            live_in(self.nodes@, n as int),
        ensures
            r@ == nd_in(self.nodes@, n as int).command@,
    {
        match &self.nodes[n] {
            Some(node) => node.command.clone(),
            None => {
                proof {
                    assert(false);
                }
                String::new()
            },
        }
    }

    /// Walks the chains from the top occupied level down to level 0 and
    /// records, per level, the last node keyed below `offset` — the update
    /// vector that `insert` and `remove` splice at.
    fn search(&self, offset: u64) -> (r: (Vec<Option<usize>>, Ghost<Seq<int>>))
        requires
            self.wf(),
        ensures
            search_ok_in(self.nodes@, self.levels@, offset, r.0@, r.1@),
    {
        let n_levels = self.header.len();
        let mut update: Vec<Option<usize>> = Vec::new();
        let mut i: usize = 0;
        while i < n_levels
            invariant
                i <= n_levels,
                update@.len() == i,
                forall|j: int| 0 <= j < i ==> update@[j] is None,
            decreases n_levels - i,
        {
            update.push(None);
            i = i + 1;
        }
        let ghost mut gpos: Seq<int> = Seq::new(n_levels as nat, |j: int| -1);

        let mut lvl: usize = self.max_level;
        let mut cur: Option<usize> = None;
        let ghost mut cpos: int = -1;

        proof {
            // levels above `max_level` have empty chains, so the header is
            // already the right predecessor there
            assert forall|j: int|
                lvl < j < n_levels implies is_pred_in(self.nodes@, self.levels@, j, gpos[j], offset)
                && update@[j] == pred_link_in(self.levels@, j, gpos[j]) by {
                assert(self.levels@[j].len() == 0);
            }
        }

        loop
            invariant
                self.wf(),
                (lvl as int) < self.num_levels(),
                n_levels == self.num_levels(),
                update@.len() == n_levels,
                gpos.len() == n_levels,
                forall|j: int|
                    lvl < j < n_levels ==> is_pred_in(
                        self.nodes@,
                        self.levels@,
                        j,
                        #[trigger] gpos[j],
                        offset,
                    ) && update@[j] == pred_link_in(self.levels@, j, gpos[j]),
                cursor_ok_in(self.nodes@, self.levels@, lvl as int, cpos, cur, offset),
            ensures
                search_ok_in(self.nodes@, self.levels@, offset, update@, gpos),
            decreases lvl,
        {
            // walk forward at this level while the next offset is below the key
            loop
                invariant
                    self.wf(),
                    (lvl as int) < self.num_levels(),
                    cursor_ok_in(self.nodes@, self.levels@, lvl as int, cpos, cur, offset),
                ensures
                    cursor_ok_in(self.nodes@, self.levels@, lvl as int, cpos, cur, offset),
                    is_pred_in(self.nodes@, self.levels@, lvl as int, cpos, offset),
                decreases self.levels@[lvl as int].len() - cpos,
            {
                proof {
                    assert(chain_ok_in(self.nodes@, self.header@, lvl as int, self.levels@[lvl as int]));
                    if cpos >= 0 {
                        assert(entry_ok_in(self.nodes@, lvl as int, self.levels@[lvl as int], cpos));
                    }
                }
                let nxt = self.next_link(&cur, lvl);
                match nxt {
                    Some(m) => {
                        proof {
                            // the next link is the chain member after `cpos`
                            assert(entry_ok_in(
                                self.nodes@,
                                lvl as int,
                                self.levels@[lvl as int],
                                cpos + 1,
                            ));
                        }
                        if self.node_offset(m) < offset {
                            cur = Some(m);
                            proof {
                                cpos = cpos + 1;
                            }
                        } else {
                            break ;
                        }
                    },
                    None => {
                        break ;
                    },
                }
            }
            update[lvl] = cur;
            proof {
                gpos = gpos.update(lvl as int, cpos);
            }
            if lvl == 0 {
                break ;
            }
            proof {
                // descend: find the cursor's position in the chain below
                match cur {
                    None => {
                        cpos = -1;
                    },
                    Some(n) => {
                        assert(chain_ok_in(self.nodes@, self.header@, lvl as int, self.levels@[lvl as int]));
                        assert(entry_ok_in(self.nodes@, lvl as int, self.levels@[lvl as int], cpos));
                        assert(self.levels@[lvl - 1].contains(n));
                        let k = choose|k: int|
                            0 <= k < self.levels@[lvl - 1].len() && #[trigger] self.levels@[lvl
                                - 1][k] == n;
                        assert(chain_ok_in(self.nodes@, self.header@, lvl - 1, self.levels@[lvl - 1]));
                        assert forall|j: int| 0 <= j <= k implies off_in(
                            self.nodes@,
                            #[trigger] self.levels@[lvl - 1][j] as int,
                        ) < offset by {
                            if j < k {
                                assert(off_in(self.nodes@, self.levels@[lvl - 1][j] as int)
                                    < off_in(self.nodes@, self.levels@[lvl - 1][k] as int));
                            }
                        }
                        cpos = k;
                    },
                }
            }
            lvl = lvl - 1;
        }
        (update, Ghost(gpos))
    }

    /// The number of records in the list.
    pub fn length(&self) -> (n: u64)
        requires
            self.wf(),
        ensures
            n == self@.len(),
    {
        self.length
    }

    /// Rewrites the level-`lvl` link of the node in slot `n`, leaving every
    /// other slot and every other field of the node as it was.
    fn set_forward(&mut self, n: usize, lvl: usize, target: Option<usize>)
        requires
            live_in(old(self).nodes@, n as int),
            (lvl as int) < height_in(old(self).nodes@, n as int),
        ensures
            final(self).nodes@.len() == old(self).nodes@.len(),
            forall|m: int|
                0 <= m < old(self).nodes@.len() && m != n ==> final(self).nodes@[m] == old(
                    self,
                ).nodes@[m],
            live_in(final(self).nodes@, n as int),
            nd_in(final(self).nodes@, n as int).offset == nd_in(old(self).nodes@, n as int).offset,
            nd_in(final(self).nodes@, n as int).command == nd_in(
                old(self).nodes@,
                n as int,
            ).command,
            nd_in(final(self).nodes@, n as int).forward@ == nd_in(
                old(self).nodes@,
                n as int,
            ).forward@.update(lvl as int, target),
            final(self).header == old(self).header,
            final(self).max_level == old(self).max_level,
            final(self).length == old(self).length,
            final(self).rng == old(self).rng,
            final(self).levels == old(self).levels,
    {
        let node_ref = &mut self.nodes[n];
        match node_ref {
            Some(node) => {
                node.forward[lvl] = target;
            },
            None => {
                proof {
                    assert(false);
                }
            },
        }
    }

    /// Looks a record up by its offset and returns a copy of its command.
    /// Absence is a routine outcome, not an error.
    pub fn find(&self, offset: u64) -> (r: Option<String>)
        requires
            self.wf(),
        ensures
            r is Some <==> has_key(self@, offset),
            r matches Some(v) ==> lookup(self@, offset) == Some(v@),
            r is None ==> lookup(self@, offset) is None,
    {
        let (update, gpos) = self.search(offset);
        proof {
            assert(is_pred_in(self.nodes@, self.levels@, 0, gpos@[0], offset));
            assert(update@[0] == pred_link_in(self.levels@, 0, gpos@[0]));
            assert(chain_ok_in(self.nodes@, self.header@, 0, self.levels@[0]));
            if gpos@[0] >= 0 {
                assert(entry_ok_in(self.nodes@, 0, self.levels@[0], gpos@[0]));
            }
        }
        let u0 = update[0];
        let nxt = self.next_link(&u0, 0);
        match nxt {
            Some(m) => {
                proof {
                    assert(entry_ok_in(self.nodes@, 0, self.levels@[0], gpos@[0] + 1));
                }
                if self.node_offset(m) == offset {
                    let cmd = self.node_command(m);
                    proof {
                        let q = gpos@[0] + 1;
                        assert(self@[q].0 == offset && self@[q].1 == cmd@);
                        self.lemma_sorted();
                        lemma_lookup_found(self@, offset, q);
                    }
                    Some(cmd)
                } else {
                    proof {
                        self.lemma_no_key(offset, gpos@[0]);
                    }
                    None
                }
            },
            None => {
                proof {
                    self.lemma_no_key(offset, gpos@[0]);
                }
                None
            },
        }
    }
    /// After splicing a fresh node `idx` of height `h` in behind the splice
    /// positions `gp`, the list invariant holds again and the record
    /// sequence is the old one with the new record at its sorted position.
    #[verifier::rlimit(100)]
    proof fn lemma_insert_restores(
        &self,
        pre: SkipList,
        offset: u64,
        cmdv: Seq<char>,
        gp: Seq<int>,
        h: int,
        idx: usize,
    )
        requires
            pre.wf(),
            1 <= h <= pre.header@.len(),
            idx == pre.nodes@.len(),
            gp.len() == pre.header@.len(),
            forall|i: int|
                0 <= i < pre.levels@.len() ==> is_pred_in(
                    pre.nodes@,
                    pre.levels@,
                    i,
                    #[trigger] gp[i],
                    offset,
                ),
            forall|n: usize|
                live_in(pre.nodes@, n as int) ==> off_in(pre.nodes@, n as int) != offset,
            self.header@.len() == pre.header@.len(),
            self.levels@ == Seq::new(
                pre.levels@.len(),
                |j: int|
                    if j < h {
                        pre.levels@[j].insert(gp[j] + 1, idx)
                    } else {
                        pre.levels@[j]
                    },
            ),
            self.max_level as int == (if h - 1 > pre.max_level as int {
                h - 1
            } else {
                pre.max_level as int
            }),
            self.length == pre.length + 1,
            self.nodes@.len() == idx + 1,
            live_in(self.nodes@, idx as int),
            off_in(self.nodes@, idx as int) == offset,
            nd_in(self.nodes@, idx as int).command@ == cmdv,
            height_in(self.nodes@, idx as int) == h,
            forall|j: int|
                0 <= j < h ==> fwd_in(self.nodes@, idx as int, j) == succ_link(
                    pre.levels@,
                    j,
                    #[trigger] gp[j],
                ),
            forall|m: int|
                #![trigger live_in(self.nodes@, m)]
                #![trigger live_in(pre.nodes@, m)]
                0 <= m < idx ==> (live_in(self.nodes@, m) <==> live_in(pre.nodes@, m)),
            forall|m: int|
                #![trigger live_in(pre.nodes@, m)]
                0 <= m < idx && live_in(pre.nodes@, m) ==> off_in(self.nodes@, m) == off_in(
                    pre.nodes@,
                    m,
                ) && nd_in(self.nodes@, m).command == nd_in(pre.nodes@, m).command && height_in(
                    self.nodes@,
                    m,
                ) == height_in(pre.nodes@, m),
            forall|m: int, j: int|
                0 <= m < idx && live_in(pre.nodes@, m) && 0 <= j < height_in(pre.nodes@, m)
                    ==> #[trigger] fwd_in(self.nodes@, m, j) == (if j < h && gp[j] >= 0
                    && pre.levels@[j][gp[j]] == m {
                    Some(idx)
                } else {
                    fwd_in(pre.nodes@, m, j)
                }),
            forall|j: int|
                0 <= j < pre.header@.len() ==> #[trigger] self.header@[j] == (if j < h && gp[j]
                    == -1 {
                    Some(idx)
                } else {
                    pre.header@[j]
                }),
        ensures
            self.wf(),
            self@ == pre@.insert(gp[0] + 1, (offset, cmdv)),
            self.num_levels() == pre.num_levels(),
    {
        let nodes = self.nodes@;
        let pn = pre.nodes@;

        // every chain member at or after a splice position is keyed above `offset`
        assert forall|i: int, j: int|
            0 <= i < pre.levels@.len() && gp[i] + 1 <= j < pre.levels@[i].len() implies off_in(
            pn,
            #[trigger] pre.levels@[i][j] as int,
        ) > offset by {
            let c = pre.levels@[i];
            assert(chain_ok_in(pn, pre.header@, i, c));
            assert(is_pred_in(pre.nodes@, pre.levels@, i, gp[i], offset));
            assert(entry_ok_in(pn, i, c, j));
            assert(live_in(pn, c[j] as int));
            assert(off_in(pn, c[j] as int) != offset);
            if j > gp[i] + 1 {
                assert(off_in(pn, c[gp[i] + 1] as int) < off_in(pn, c[j] as int));
            }
        }

        // (a) every chain is well linked and sorted again
        assert forall|i: int|
            0 <= i < self.levels@.len() implies chain_ok_in(
            nodes,
            self.header@,
            i,
            #[trigger] self.levels@[i],
        ) by {
            let c = pre.levels@[i];
            let p = gp[i];
            assert(chain_ok_in(pn, pre.header@, i, c));
            assert(is_pred_in(pre.nodes@, pre.levels@, i, p, offset));
            if i < h {
                let nc = self.levels@[i];
                assert(nc == c.insert(p + 1, idx));
                c.insert_ensures(p + 1, idx);
                assert(nc.len() == c.len() + 1);
                // the header link
                if p == -1 {
                    assert(self.header@[i] == Some(idx));
                    assert(nc[0] == idx);
                } else {
                    assert(entry_ok_in(pn, i, c, 0));
                    assert(self.header@[i] == pre.header@[i]);
                    assert(nc[0] == c[0]);
                }
                // the links
                assert forall|k: int| 0 <= k < nc.len() implies entry_ok_in(nodes, i, nc, k) by {
                    if k < p {
                        assert(nc[k] == c[k]);
                        assert(entry_ok_in(pn, i, c, k));
                        let m = c[k] as int;
                        assert(off_in(pn, c[k] as int) < off_in(pn, c[p] as int));
                        assert(fwd_in(nodes, m, i) == fwd_in(pn, m, i));
                        assert(nc[k + 1] == c[k + 1]);
                    } else if k == p {
                        assert(nc[k] == c[k]);
                        assert(entry_ok_in(pn, i, c, k));
                        let m = c[k] as int;
                        assert(fwd_in(nodes, m, i) == Some(idx));
                        assert(nc[k + 1] == idx);
                    } else if k == p + 1 {
                        assert(nc[k] == idx);
                        assert(fwd_in(nodes, idx as int, i) == succ_link(pre.levels@, i, p));
                        if k + 1 < nc.len() {
                            assert(nc[k + 1] == c[k]);
                        }
                    } else {
                        assert(nc[k] == c[k - 1]);
                        assert(entry_ok_in(pn, i, c, k - 1));
                        let m = c[k - 1] as int;
                        if p >= 0 {
                            assert(off_in(pn, c[p] as int) < off_in(pn, c[k - 1] as int));
                        }
                        assert(fwd_in(nodes, m, i) == fwd_in(pn, m, i));
                        if k + 1 < nc.len() {
                            assert(nc[k + 1] == c[k]);
                        }
                    }
                }
                // the order
                assert forall|k1: int, k2: int|
                    0 <= k1 < k2 < nc.len() implies off_in(nodes, nc[k1] as int) < off_in(
                    nodes,
                    nc[k2] as int,
                ) by {
                    let o1 = off_in(nodes, nc[k1] as int);
                    let o2 = off_in(nodes, nc[k2] as int);
                    if k1 <= p {
                        assert(nc[k1] == c[k1]);
                        assert(entry_ok_in(pn, i, c, k1));
                        assert(live_in(pn, c[k1] as int));
                        assert(o1 == off_in(pn, c[k1] as int));
                        assert(o1 < offset);
                    } else if k1 == p + 1 {
                        assert(nc[k1] == idx);
                        assert(o1 == offset);
                    } else {
                        assert(nc[k1] == c[k1 - 1]);
                        assert(entry_ok_in(pn, i, c, k1 - 1));
                        assert(live_in(pn, c[k1 - 1] as int));
                        assert(o1 == off_in(pn, c[k1 - 1] as int));
                        assert(off_in(pn, pre.levels@[i][k1 - 1] as int) > offset);
                    }
                    if k2 <= p {
                        assert(nc[k2] == c[k2]);
                        assert(entry_ok_in(pn, i, c, k2));
                        assert(live_in(pn, c[k2] as int));
                        assert(o2 == off_in(pn, c[k2] as int));
                        assert(o2 < offset);
                    } else if k2 == p + 1 {
                        assert(nc[k2] == idx);
                        assert(o2 == offset);
                    } else {
                        assert(nc[k2] == c[k2 - 1]);
                        assert(entry_ok_in(pn, i, c, k2 - 1));
                        assert(live_in(pn, c[k2 - 1] as int));
                        assert(o2 == off_in(pn, c[k2 - 1] as int));
                        assert(off_in(pn, pre.levels@[i][k2 - 1] as int) > offset);
                    }
                    if k2 <= p {
                        assert(off_in(pn, c[k1] as int) < off_in(pn, c[k2] as int));
                    }
                    if k1 > p + 1 {
                        assert(off_in(pn, c[k1 - 1] as int) < off_in(pn, c[k2 - 1] as int));
                    }
                }
            } else {
                let nc = self.levels@[i];
                assert(nc == c);
                assert(self.header@[i] == pre.header@[i]);
                assert forall|k: int| 0 <= k < nc.len() implies entry_ok_in(nodes, i, nc, k) by {
                    assert(entry_ok_in(pn, i, c, k));
                    let m = c[k] as int;
                    assert(fwd_in(nodes, m, i) == fwd_in(pn, m, i));
                }
                assert forall|k1: int, k2: int|
                    0 <= k1 < k2 < nc.len() implies off_in(nodes, nc[k1] as int) < off_in(
                    nodes,
                    nc[k2] as int,
                ) by {
                    assert(entry_ok_in(pn, i, c, k1));
                    assert(entry_ok_in(pn, i, c, k2));
                    assert(off_in(pn, c[k1] as int) < off_in(pn, c[k2] as int));
                }
            }
        }

        // (b) every live node still appears in every chain it is tall enough for
        assert forall|i: int, n: usize|
            0 <= i < self.levels@.len() && live_in(nodes, n as int) && i < height_in(
                nodes,
                n as int,
            ) implies #[trigger] self.levels@[i].contains(n) by {
            let c = pre.levels@[i];
            let p = gp[i];
            if n as int == idx as int {
                assert(i < h);
                assert(self.levels@[i] == c.insert(p + 1, idx));
                c.insert_ensures(p + 1, idx);
                assert(self.levels@[i][p + 1] == idx);
                assert(0 <= p + 1 < self.levels@[i].len());
            } else {
                assert(live_in(pn, n as int));
                assert(height_in(pn, n as int) == height_in(nodes, n as int));
                assert(pre.levels@[i].contains(n));
                let k = choose|k: int| 0 <= k < c.len() && #[trigger] c[k] == n;
                if i < h {
                    c.insert_ensures(p + 1, idx);
                    if k < p + 1 {
                        assert(self.levels@[i][k] == n);
                    } else {
                        assert(self.levels@[i][k + 1] == n);
                    }
                } else {
                    assert(self.levels@[i][k] == n);
                }
            }
        }

        // (c) tower heights stay within the header
        assert forall|n: int| #[trigger] live_in(nodes, n) implies 1 <= height_in(nodes, n)
            <= self.header@.len() by {
            if n == idx as int {
            } else {
                assert(live_in(pn, n));
            }
        }

        // (d) chains above the new top stay empty
        assert forall|i: int|
            (self.max_level as int) < i < self.levels@.len() implies (
        #[trigger] self.levels@[i]).len() == 0 by {
            assert(i >= h);
            assert(self.levels@[i] == pre.levels@[i]);
        }

        // (e) the top level is occupied
        if self.max_level > 0 {
            if h - 1 > pre.max_level as int {
                let c = pre.levels@[h - 1];
                c.insert_ensures(gp[h - 1] + 1, idx);
                assert(self.levels@[h - 1].len() > 0);
            } else {
                if (pre.max_level as int) < h {
                    let c = pre.levels@[pre.max_level as int];
                    c.insert_ensures(gp[pre.max_level as int] + 1, idx);
                    assert(self.levels@[pre.max_level as int].len() > 0);
                } else {
                    assert(self.levels@[pre.max_level as int] == pre.levels@[pre.max_level as int]);
                }
            }
        }

        // (f) the count follows the level-0 chain
        pre.levels@[0].insert_ensures(gp[0] + 1, idx);
        assert(self.levels@[0].len() == pre.levels@[0].len() + 1);

        // (g) the record sequence gained exactly the new record, in place
        let nc0 = self.levels@[0];
        let c0 = pre.levels@[0];
        let p0 = gp[0];
        pre@.insert_ensures(p0 + 1, (offset, cmdv));
        assert(chain_ok_in(pn, pre.header@, 0, c0));
        assert forall|k: int|
            0 <= k < self@.len() implies #[trigger] self@[k] == pre@.insert(
            p0 + 1,
            (offset, cmdv),
        )[k] by {
            assert(self@[k] == (off_in(nodes, nc0[k] as int), nd_in(nodes, nc0[k] as int).command@));
            if k < p0 + 1 {
                assert(nc0[k] == c0[k]);
                assert(entry_ok_in(pn, 0, c0, k));
                assert(pre@[k] == (off_in(pn, c0[k] as int), nd_in(pn, c0[k] as int).command@));
            } else if k == p0 + 1 {
                assert(nc0[k] == idx);
            } else {
                assert(nc0[k] == c0[k - 1]);
                assert(entry_ok_in(pn, 0, c0, k - 1));
                assert(pre@[k - 1] == (
                    off_in(pn, c0[k - 1] as int),
                    nd_in(pn, c0[k - 1] as int).command@,
                ));
            }
        }
        assert(self@ =~= pre@.insert(p0 + 1, (offset, cmdv)));
    }

    /// Inserts a record at its sorted position. An offset already present is
    /// rejected with `DuplicateKey` and the list is left untouched.
    pub fn insert(&mut self, offset: u64, command: String) -> (r: Result<(), DuplicateKey>)
        requires
            old(self).wf(),
            old(self)@.len() < u64::MAX,
        ensures
            final(self).wf(),
            final(self).num_levels() == old(self).num_levels(),
            has_key(old(self)@, offset) ==> r is Err && *final(self) == *old(self),
            !has_key(old(self)@, offset) ==> r is Ok && final(self)@ == old(self)@.insert(
                index_for(old(self)@, offset),
                (offset, command@),
            ),
    {
        let (update, gpos) = self.search(offset);
        proof {
            assert(is_pred_in(self.nodes@, self.levels@, 0, gpos@[0], offset));
            assert(update@[0] == pred_link_in(self.levels@, 0, gpos@[0]));
            assert(chain_ok_in(self.nodes@, self.header@, 0, self.levels@[0]));
            if gpos@[0] >= 0 {
                assert(entry_ok_in(self.nodes@, 0, self.levels@[0], gpos@[0]));
            }
        }
        let u0 = update[0];
        let nxt = self.next_link(&u0, 0);
        let dup = match nxt {
            Some(m) => {
                proof {
                    assert(entry_ok_in(self.nodes@, 0, self.levels@[0], gpos@[0] + 1));
                }
                self.node_offset(m) == offset
            },
            None => false,
        };
        if dup {
            proof {
                let q = gpos@[0] + 1;
                assert(self@[q].0 == offset);
            }
            return Err(DuplicateKey);
        }
        proof {
            self.lemma_no_key(offset, gpos@[0]);
        }
        let ghost pre = *self;
        proof {
            assert(pre == *old(self));
            // no live node at all carries `offset`
            assert forall|n: usize|
                live_in(pre.nodes@, n as int) implies off_in(pre.nodes@, n as int) != offset by {
                assert(pre.levels@[0].contains(n));
                let k = choose|k: int|
                    0 <= k < pre.levels@[0].len() && #[trigger] pre.levels@[0][k] == n;
                assert(pre@[k].0 == off_in(pre.nodes@, n as int));
            }
        }
        let ghost cmdv = command@;
        let n_levels = self.header.len();
        let h = random_level(&mut self.rng, n_levels);

        // gather the new node's links: at each of its levels, the old
        // successor of the splice position
        let mut fwd: Vec<Option<usize>> = Vec::new();
        let mut i: usize = 0;
        while i < h
            invariant
                i <= h,
                1 <= h <= n_levels,
                fwd@.len() == i,
                self.nodes@ == pre.nodes@,
                self.header@ == pre.header@,
                self.levels@ == pre.levels@,
                pre.wf(),
                n_levels == pre.header@.len(),
                search_ok_in(pre.nodes@, pre.levels@, offset, update@, gpos@),
                update@.len() == n_levels,
                forall|j: int| 0 <= j < i ==> fwd@[j] == succ_link(pre.levels@, j, gpos@[j]),
            decreases h - i,
        {
            proof {
                assert(is_pred_in(pre.nodes@, pre.levels@, i as int, gpos@[i as int], offset));
                assert(update@[i as int] == pred_link_in(pre.levels@, i as int, gpos@[i as int]));
                assert(chain_ok_in(pre.nodes@, pre.header@, i as int, pre.levels@[i as int]));
                if gpos@[i as int] >= 0 {
                    assert(entry_ok_in(pre.nodes@, i as int, pre.levels@[i as int], gpos@[i as int]));
                }
            }
            let uj = update[i];
            let nx = self.next_link(&uj, i);
            proof {
                if gpos@[i as int] + 1 < pre.levels@[i as int].len() {
                    assert(entry_ok_in(
                        pre.nodes@,
                        i as int,
                        pre.levels@[i as int],
                        gpos@[i as int] + 1,
                    ));
                }
                assert(nx == succ_link(pre.levels@, i as int, gpos@[i as int]));
            }
            fwd.push(nx);
            i = i + 1;
        }

        let idx = self.nodes.len();
        self.nodes.push(Some(Node { offset, command, forward: fwd }));

        // splice the node in after the recorded predecessor of each level
        let mut i: usize = 0;
        while i < h
            invariant
                i <= h,
                1 <= h <= n_levels,
                pre.wf(),
                n_levels == pre.header@.len(),
                search_ok_in(pre.nodes@, pre.levels@, offset, update@, gpos@),
                update@.len() == n_levels,
                idx == pre.nodes@.len(),
                self.header@.len() == n_levels,
                self.levels@ == pre.levels@,
                self.max_level == pre.max_level,
                self.length == pre.length,
                self.nodes@.len() == idx + 1,
                live_in(self.nodes@, idx as int),
                off_in(self.nodes@, idx as int) == offset,
                nd_in(self.nodes@, idx as int).command@ == cmdv,
                height_in(self.nodes@, idx as int) == h,
                forall|j: int|
                    0 <= j < h ==> fwd_in(self.nodes@, idx as int, j) == succ_link(
                        pre.levels@,
                        j,
                        #[trigger] gpos@[j],
                    ),
                forall|m: int|
                    0 <= m < idx ==> (live_in(self.nodes@, m) <==> live_in(pre.nodes@, m)),
                forall|m: int|
                    0 <= m < idx && live_in(pre.nodes@, m) ==> off_in(self.nodes@, m) == off_in(
                        pre.nodes@,
                        m,
                    ) && nd_in(self.nodes@, m).command == nd_in(pre.nodes@, m).command
                        && height_in(self.nodes@, m) == height_in(pre.nodes@, m),
                forall|m: int, j: int|
                    0 <= m < idx && live_in(pre.nodes@, m) && 0 <= j < height_in(pre.nodes@, m)
                        ==> #[trigger] fwd_in(self.nodes@, m, j) == (if j < i && gpos@[j] >= 0
                        && pre.levels@[j][gpos@[j]] == m {
                        Some(idx as usize)
                    } else {
                        fwd_in(pre.nodes@, m, j)
                    }),
                forall|j: int|
                    0 <= j < n_levels ==> #[trigger] self.header@[j] == (if j < i && gpos@[j] == -1 {
                        Some(idx as usize)
                    } else {
                        pre.header@[j]
                    }),
            decreases h - i,
        {
            proof {
                assert(is_pred_in(pre.nodes@, pre.levels@, i as int, gpos@[i as int], offset));
                assert(update@[i as int] == pred_link_in(pre.levels@, i as int, gpos@[i as int]));
                assert(chain_ok_in(pre.nodes@, pre.header@, i as int, pre.levels@[i as int]));
                if gpos@[i as int] >= 0 {
                    assert(entry_ok_in(pre.nodes@, i as int, pre.levels@[i as int], gpos@[i as int]));
                }
            }
            let ghost before = *self;
            let uj = update[i];
            match uj {
                None => {
                    proof {
                        assert(gpos@[i as int] == -1);
                    }
                    self.header[i] = Some(idx);
                },
                Some(p) => {
                    proof {
                        assert(gpos@[i as int] >= 0);
                        assert(pre.levels@[i as int][gpos@[i as int]] == p);
                        assert(live_in(pre.nodes@, p as int));
                        assert((p as int) < idx);
                        assert(live_in(before.nodes@, p as int));
                        assert(height_in(before.nodes@, p as int) == height_in(
                            pre.nodes@,
                            p as int,
                        ));
                        assert((i as int) < height_in(pre.nodes@, p as int));
                    }
                    self.set_forward(p, i, Some(idx));
                    proof {
                        assert forall|m: int, j: int|
                            0 <= m < idx && live_in(pre.nodes@, m) && 0 <= j < height_in(
                                pre.nodes@,
                                m,
                            ) implies #[trigger] fwd_in(self.nodes@, m, j) == (if j < i + 1
                            && gpos@[j] >= 0 && pre.levels@[j][gpos@[j]] == m {
                            Some(idx as usize)
                        } else {
                            fwd_in(pre.nodes@, m, j)
                        }) by {
                            assert(fwd_in(before.nodes@, m, j) == (if j < i && gpos@[j] >= 0
                                && pre.levels@[j][gpos@[j]] == m {
                                Some(idx as usize)
                            } else {
                                fwd_in(pre.nodes@, m, j)
                            }));
                            if m == p as int {
                                assert(nd_in(self.nodes@, m).forward@ == nd_in(
                                    before.nodes@,
                                    m,
                                ).forward@.update(i as int, Some(idx as usize)));
                            } else {
                                assert(self.nodes@[m] == before.nodes@[m]);
                            }
                        }
                    }
                },
            }
            i = i + 1;
        }

        if h - 1 > self.max_level {
            self.max_level = h - 1;
        }
        self.length = self.length + 1;
        let ghost newlevels = Seq::new(
            pre.levels@.len(),
            |j: int|
                if j < h {
                    pre.levels@[j].insert(gpos@[j] + 1, idx)
                } else {
                    pre.levels@[j]
                },
        );
        proof {
            self.levels@ = newlevels;
        }
        proof {
            self.lemma_insert_restores(pre, offset, cmdv, gpos@, h as int, idx);
            // the ensured view shape
            assert forall|k: int| 0 <= k <= gpos@[0] implies (#[trigger] pre@[k]).0 < offset by {
                assert(pre@[k].0 == off_in(pre.nodes@, pre.levels@[0][k] as int));
            }
            if gpos@[0] + 1 < pre@.len() {
                assert(pre@[gpos@[0] + 1].0 == off_in(
                    pre.nodes@,
                    pre.levels@[0][gpos@[0] + 1] as int,
                ));
            }
            lemma_index_for_at(pre@, offset, gpos@[0]);
        }
        Ok(())
    }

    /// Appends a record; offsets handed in increasing order make this the
    /// cheap tail insert, but any order is accepted. The same as `insert`.
    pub fn append(&mut self, offset: u64, value: String) -> (r: Result<(), DuplicateKey>)
        requires
            old(self).wf(),
            old(self)@.len() < u64::MAX,
        ensures
            final(self).wf(),
            final(self).num_levels() == old(self).num_levels(),
            has_key(old(self)@, offset) ==> r is Err && *final(self) == *old(self),
            !has_key(old(self)@, offset) ==> r is Ok && final(self)@ == old(self)@.insert(
                index_for(old(self)@, offset),
                (offset, value@),
            ),
    {
        self.insert(offset, value)
    }

    /// Removes and returns the first record in offset order, if any.
    pub fn pop_front(&mut self) -> (r: Option<(u64, String)>)
        requires
            old(self).wf(),
        ensures
            final(self).wf(),
            final(self).num_levels() == old(self).num_levels(),
            old(self)@.len() == 0 ==> r is None && *final(self) == *old(self),
            old(self)@.len() > 0 ==> (r matches Some(pr) && pr.0 == old(self)@[0].0 && pr.1@ == old(
                self,
            )@[0].1 && final(self)@ == old(self)@.drop_first()),
    {
        proof {
            assert(chain_ok_in(self.nodes@, self.header@, 0, self.levels@[0]));
        }
        let hd = self.header[0];
        match hd {
            None => {
                proof {
                    assert(self.levels@[0].len() == 0);
                }
                None
            },
            Some(first) => {
                proof {
                    assert(entry_ok_in(self.nodes@, 0, self.levels@[0], 0));
                }
                let off0 = self.node_offset(first);
                proof {
                    assert(self@[0].0 == off0);
                    self.lemma_sorted();
                    assert(index_for(self@, off0) == 0);
                    lemma_lookup_found(self@, off0, 0);
                }
                let r = self.remove(off0);
                proof {
                    assert(old(self)@.remove(0) =~= old(self)@.drop_first());
                }
                r
            },
        }
    }

    /// The tower height of the `k`-th record's node, in offset order.
    pub closed spec fn tower_height_at(&self, k: int) -> int {
        height_in(self.nodes@, self.levels@[0][k] as int)
    }

    /// Reads out the records in offset order. The walk uses only the level-0
    /// chain; higher levels exist solely to speed `find` up. A fresh call
    /// starts over at the head.
    pub fn iterate(&self) -> (r: Vec<(u64, String)>)
        requires
            self.wf(),
        ensures
            r@.len() == self@.len(),
            forall|k: int|
                0 <= k < self@.len() ==> (#[trigger] r@[k]).0 == self@[k].0 && r@[k].1@
                    == self@[k].1,
    {
        let mut out: Vec<(u64, String)> = Vec::new();
        let mut cur: Option<usize> = self.header[0];
        let ghost mut k: int = 0;
        proof {
            assert(chain_ok_in(self.nodes@, self.header@, 0, self.levels@[0]));
        }
        loop
            invariant
                self.wf(),
                0 <= k <= self.levels@[0].len(),
                out@.len() == k,
                forall|j: int|
                    0 <= j < k ==> (#[trigger] out@[j]).0 == self@[j].0 && out@[j].1@
                        == self@[j].1,
                cur == (if k < self.levels@[0].len() {
                    Some(self.levels@[0][k])
                } else {
                    None::<usize>
                }),
            ensures
                out@.len() == self@.len(),
                forall|j: int|
                    0 <= j < self@.len() ==> (#[trigger] out@[j]).0 == self@[j].0 && out@[j].1@
                        == self@[j].1,
            decreases self.levels@[0].len() - k,
        {
            match cur {
                None => {
                    break ;
                },
                Some(n) => {
                    proof {
                        assert(chain_ok_in(self.nodes@, self.header@, 0, self.levels@[0]));
                        assert(entry_ok_in(self.nodes@, 0, self.levels@[0], k));
                    }
                    let o = self.node_offset(n);
                    let cmd = self.node_command(n);
                    out.push((o, cmd));
                    let ncur = Some(n);
                    cur = self.next_link(&ncur, 0);
                    proof {
                        k = k + 1;
                    }
                },
            }
        }
        out
    }

    /// Reads out the tower height of every record's node, in offset order.
    pub fn tower_heights(&self) -> (r: Vec<usize>)
        requires
            self.wf(),
        ensures
            r@.len() == self@.len(),
            forall|k: int| 0 <= k < self@.len() ==> #[trigger] r@[k] as int == self.tower_height_at(
                k,
            ) && 1 <= r@[k] <= self.num_levels(),
    {
        let mut out: Vec<usize> = Vec::new();
        let mut cur: Option<usize> = self.header[0];
        let ghost mut k: int = 0;
        proof {
            assert(chain_ok_in(self.nodes@, self.header@, 0, self.levels@[0]));
        }
        loop
            invariant
                self.wf(),
                0 <= k <= self.levels@[0].len(),
                out@.len() == k,
                forall|j: int|
                    0 <= j < k ==> #[trigger] out@[j] as int == self.tower_height_at(j) && 1
                        <= out@[j] <= self.num_levels(),
                cur == (if k < self.levels@[0].len() {
                    Some(self.levels@[0][k])
                } else {
                    None::<usize>
                }),
            ensures
                out@.len() == self@.len(),
                forall|j: int|
                    0 <= j < self@.len() ==> #[trigger] out@[j] as int == self.tower_height_at(j)
                        && 1 <= out@[j] <= self.num_levels(),
            decreases self.levels@[0].len() - k,
        {
            match cur {
                None => {
                    break ;
                },
                Some(n) => {
                    proof {
                        assert(chain_ok_in(self.nodes@, self.header@, 0, self.levels@[0]));
                        assert(entry_ok_in(self.nodes@, 0, self.levels@[0], k));
                        assert(live_in(self.nodes@, n as int));
                    }
                    let ht = self.node_height(n);
                    out.push(ht);
                    let ncur = Some(n);
                    cur = self.next_link(&ncur, 0);
                    proof {
                        k = k + 1;
                    }
                },
            }
        }
        out
    }

    /// True when a record keyed by `offset` stands in the level-`i` chain.
    pub closed spec fn level_contains(&self, i: int, offset: u64) -> bool {
        exists|k: int|
            0 <= k < self.levels@[i].len() && off_in(
                self.nodes@,
                #[trigger] self.levels@[i][k] as int,
            ) == offset
    }

    /// Level-subset invariant: a record linked at some level is linked at
    /// every level below it; level 0 holds every record.
    pub proof fn lemma_level_subset(&self, i: int, j: int, offset: u64)
        requires
            self.wf(),
            0 <= i < j < self.num_levels(),
            self.level_contains(j, offset),
        ensures
            self.level_contains(i, offset),
    {
        let k = choose|k: int|
            0 <= k < self.levels@[j].len() && off_in(
                self.nodes@,
                #[trigger] self.levels@[j][k] as int,
            ) == offset;
        let n = self.levels@[j][k];
        assert(chain_ok_in(self.nodes@, self.header@, j, self.levels@[j]));
        assert(entry_ok_in(self.nodes@, j, self.levels@[j], k));
        assert(live_in(self.nodes@, n as int));
        assert(i < height_in(self.nodes@, n as int));
        assert(self.levels@[i].contains(n));
        let k2 = choose|k2: int|
            0 <= k2 < self.levels@[i].len() && #[trigger] self.levels@[i][k2] == n;
        assert(off_in(self.nodes@, self.levels@[i][k2] as int) == offset);
    }

    /// Round trip: inserting a fresh record and looking its offset up right
    /// away yields exactly the inserted command, and the key is then
    /// present — so a second insert of the same offset is refused.
    pub proof fn lemma_insert_then_find(s: Seq<(u64, Seq<char>)>, offset: u64, cmd: Seq<char>)
        requires
            sorted_by_offset(s),
            !has_key(s, offset),
        ensures
            lookup(s.insert(index_for(s, offset), (offset, cmd)), offset) == Some(cmd),
            has_key(s.insert(index_for(s, offset), (offset, cmd)), offset),
    {
        let p = index_for(s, offset);
        lemma_index_for_bounds(s, offset);
        let t = s.insert(p, (offset, cmd));
        s.insert_ensures(p, (offset, cmd));
        assert(t[p] == (offset, cmd));
        assert forall|k1: int, k2: int|
            0 <= k1 < k2 < t.len() implies (#[trigger] t[k1]).0 < (#[trigger] t[k2]).0 by {
            if k1 < p {
                assert(t[k1] == s[k1]);
            } else if k1 > p {
                assert(t[k1] == s[k1 - 1]);
                assert(s[k1 - 1].0 >= offset);
                assert(s[k1 - 1].0 != offset);
            }
            if k2 < p {
                assert(t[k2] == s[k2]);
            } else if k2 > p {
                assert(t[k2] == s[k2 - 1]);
                assert(s[k2 - 1].0 >= offset);
                assert(s[k2 - 1].0 != offset);
            }
        }
        lemma_lookup_found(t, offset, p);
    }

    /// Reads the tower height of the node in slot `n`.
    fn node_height(&self, n: usize) -> (r: usize)
        requires
            live_in(self.nodes@, n as int),
        ensures
            r as int == height_in(self.nodes@, n as int),
    {
        match &self.nodes[n] {
            Some(node) => node.forward.len(),
            None => {
                proof {
                    assert(false);
                }
                0
            },
        }
    }

    /// After unsplicing node `m` of height `hm` from behind the splice
    /// positions `gp` and clearing its slot, the chains and the arena are
    /// sound again and the record sequence lost exactly that record.
    #[verifier::rlimit(100)]
    proof fn lemma_remove_restores(
        &self,
        pre: SkipList,
        offset: u64,
        gp: Seq<int>,
        hm: int,
        m: usize,
    )
        requires
            pre.wf(),
            live_in(pre.nodes@, m as int),
            off_in(pre.nodes@, m as int) == offset,
            hm == height_in(pre.nodes@, m as int),
            gp.len() == pre.header@.len(),
            forall|i: int|
                0 <= i < pre.levels@.len() ==> is_pred_in(
                    pre.nodes@,
                    pre.levels@,
                    i,
                    #[trigger] gp[i],
                    offset,
                ),
            forall|i: int|
                0 <= i < hm ==> #[trigger] gp[i] + 1 < pre.levels@[i].len() && pre.levels@[i][gp[i]
                    + 1] == m,
            forall|n: usize|
                live_in(pre.nodes@, n as int) && n != m ==> off_in(pre.nodes@, n as int) != offset,
            self.header@.len() == pre.header@.len(),
            self.levels@ == Seq::new(
                pre.levels@.len(),
                |j: int|
                    if j < hm {
                        pre.levels@[j].remove(gp[j] + 1)
                    } else {
                        pre.levels@[j]
                    },
            ),
            self.max_level == pre.max_level,
            self.length == pre.length - 1,
            self.nodes@.len() == pre.nodes@.len(),
            !(self.nodes@[m as int] is Some),
            forall|n: int|
                #![trigger live_in(self.nodes@, n)]
                #![trigger live_in(pre.nodes@, n)]
                0 <= n < pre.nodes@.len() && n != m ==> (live_in(self.nodes@, n) <==> live_in(
                    pre.nodes@,
                    n,
                )),
            forall|n: int|
                #![trigger live_in(pre.nodes@, n)]
                0 <= n < pre.nodes@.len() && n != m && live_in(pre.nodes@, n) ==> off_in(
                    self.nodes@,
                    n,
                ) == off_in(pre.nodes@, n) && nd_in(self.nodes@, n).command == nd_in(
                    pre.nodes@,
                    n,
                ).command && height_in(self.nodes@, n) == height_in(pre.nodes@, n),
            forall|n: int, j: int|
                0 <= n < pre.nodes@.len() && n != m && live_in(pre.nodes@, n) && 0 <= j
                    < height_in(pre.nodes@, n) ==> #[trigger] fwd_in(self.nodes@, n, j) == (if j
                    < hm && gp[j] >= 0 && pre.levels@[j][gp[j]] == n {
                    fwd_in(pre.nodes@, m as int, j)
                } else {
                    fwd_in(pre.nodes@, n, j)
                }),
            forall|j: int|
                0 <= j < pre.header@.len() ==> #[trigger] self.header@[j] == (if j < hm && gp[j]
                    == -1 {
                    fwd_in(pre.nodes@, m as int, j)
                } else {
                    pre.header@[j]
                }),
        ensures
            self.wf_core(),
            forall|i: int|
                (pre.max_level as int) < i < self.levels@.len() ==> (
                #[trigger] self.levels@[i]).len() == 0,
            self@ == pre@.remove(gp[0] + 1),
            self.num_levels() == pre.num_levels(),
    {
        let nodes = self.nodes@;
        let pn = pre.nodes@;

        // node `m` sits in no chain at or above its height
        assert forall|i: int, k: int|
            hm <= i < pre.levels@.len() && 0 <= k < pre.levels@[i].len() implies pre.levels@[i][k]
            != m by {
            assert(chain_ok_in(pn, pre.header@, i, pre.levels@[i]));
            assert(entry_ok_in(pn, i, pre.levels@[i], k));
        }

        // (a) every chain is well linked and sorted again
        assert forall|i: int|
            0 <= i < self.levels@.len() implies chain_ok_in(
            nodes,
            self.header@,
            i,
            #[trigger] self.levels@[i],
        ) by {
            let c = pre.levels@[i];
            let p = gp[i];
            let q = p + 1;
            assert(chain_ok_in(pn, pre.header@, i, c));
            assert(is_pred_in(pre.nodes@, pre.levels@, i, p, offset));
            if i < hm {
                let nc = self.levels@[i];
                assert(nc == c.remove(q));
                c.remove_ensures(q);
                assert(nc.len() == c.len() - 1);
                assert(c[q] == m);
                assert(entry_ok_in(pn, i, c, q));
                // the header link
                if p == -1 {
                    assert(self.header@[i] == fwd_in(pn, m as int, i));
                    if nc.len() == 0 {
                        assert(c.len() == 1);
                        assert(fwd_in(pn, m as int, i) == None::<usize>);
                    } else {
                        assert(nc[0] == c[1]);
                        assert(fwd_in(pn, m as int, i) == Some(c[1]));
                    }
                } else {
                    assert(self.header@[i] == pre.header@[i]);
                    assert(nc[0] == c[0]);
                    assert(nc.len() > 0);
                }
                // the links
                assert forall|k: int| 0 <= k < nc.len() implies entry_ok_in(nodes, i, nc, k) by {
                    if k < q - 1 {
                        assert(nc[k] == c[k]);
                        assert(entry_ok_in(pn, i, c, k));
                        let n = c[k] as int;
                        assert(off_in(pn, c[k] as int) < off_in(pn, c[q - 1] as int));
                        assert(fwd_in(nodes, n, i) == fwd_in(pn, n, i));
                        assert(nc[k + 1] == c[k + 1]);
                    } else if k == q - 1 {
                        assert(nc[k] == c[k]);
                        assert(entry_ok_in(pn, i, c, k));
                        let n = c[k] as int;
                        assert(pre.levels@[i][gp[i]] == c[k]);
                        assert(fwd_in(nodes, n, i) == fwd_in(pn, m as int, i));
                        if k + 1 < nc.len() {
                            assert(nc[k + 1] == c[k + 2]);
                            assert(fwd_in(pn, m as int, i) == Some(c[k + 2]));
                        } else {
                            assert(q + 1 == c.len());
                            assert(fwd_in(pn, m as int, i) == None::<usize>);
                        }
                    } else {
                        assert(nc[k] == c[k + 1]);
                        assert(entry_ok_in(pn, i, c, k + 1));
                        let n = c[k + 1] as int;
                        assert(off_in(pn, c[q] as int) < off_in(pn, c[k + 1] as int));
                        if p >= 0 {
                            assert(off_in(pn, c[p] as int) < off_in(pn, c[k + 1] as int));
                        }
                        assert(c[k + 1] != m);
                        assert(fwd_in(nodes, n, i) == fwd_in(pn, n, i));
                        if k + 1 < nc.len() {
                            assert(nc[k + 1] == c[k + 2]);
                        }
                    }
                }
                // the order
                assert forall|k1: int, k2: int|
                    0 <= k1 < k2 < nc.len() implies off_in(nodes, nc[k1] as int) < off_in(
                    nodes,
                    nc[k2] as int,
                ) by {
                    let j1: int = if k1 < q { k1 } else { k1 + 1 };
                    let j2: int = if k2 < q { k2 } else { k2 + 1 };
                    assert(nc[k1] == c[j1]);
                    assert(nc[k2] == c[j2]);
                    assert(entry_ok_in(pn, i, c, j1));
                    assert(entry_ok_in(pn, i, c, j2));
                    assert(c[j1] != m && c[j2] != m);
                    assert(off_in(pn, c[j1] as int) < off_in(pn, c[j2] as int));
                    assert(off_in(nodes, nc[k1] as int) == off_in(pn, c[j1] as int));
                    assert(off_in(nodes, nc[k2] as int) == off_in(pn, c[j2] as int));
                }
            } else {
                let nc = self.levels@[i];
                assert(nc == c);
                assert(self.header@[i] == pre.header@[i]);
                assert forall|k: int| 0 <= k < nc.len() implies entry_ok_in(nodes, i, nc, k) by {
                    assert(entry_ok_in(pn, i, c, k));
                    let n = c[k] as int;
                    assert(c[k] != m);
                    assert(fwd_in(nodes, n, i) == fwd_in(pn, n, i));
                }
                assert forall|k1: int, k2: int|
                    0 <= k1 < k2 < nc.len() implies off_in(nodes, nc[k1] as int) < off_in(
                    nodes,
                    nc[k2] as int,
                ) by {
                    assert(entry_ok_in(pn, i, c, k1));
                    assert(entry_ok_in(pn, i, c, k2));
                    assert(c[k1] != m && c[k2] != m);
                    assert(off_in(pn, c[k1] as int) < off_in(pn, c[k2] as int));
                }
            }
        }

        // (b) every remaining live node still appears where it is tall enough
        assert forall|i: int, n: usize|
            0 <= i < self.levels@.len() && live_in(nodes, n as int) && i < height_in(
                nodes,
                n as int,
            ) implies #[trigger] self.levels@[i].contains(n) by {
            assert(live_in(pn, n as int));
            assert(n != m);
            assert(height_in(pn, n as int) == height_in(nodes, n as int));
            assert(pre.levels@[i].contains(n));
            let c = pre.levels@[i];
            let k = choose|k: int| 0 <= k < c.len() && #[trigger] c[k] == n;
            if i < hm {
                let q = gp[i] + 1;
                c.remove_ensures(q);
                assert(c[q] == m);
                assert(k != q);
                if k < q {
                    assert(self.levels@[i][k] == n);
                    assert(0 <= k < self.levels@[i].len());
                } else {
                    assert(self.levels@[i][k - 1] == n);
                    assert(0 <= k - 1 < self.levels@[i].len());
                }
            } else {
                assert(self.levels@[i][k] == n);
            }
        }

        // (c) tower heights stay within the header
        assert forall|n: int| #[trigger] live_in(nodes, n) implies 1 <= height_in(nodes, n)
            <= self.header@.len() by {
            assert(n != m);
            assert(live_in(pn, n));
        }

        // (d) chains above the old top stay empty
        assert forall|i: int|
            (pre.max_level as int) < i < self.levels@.len() implies (
        #[trigger] self.levels@[i]).len() == 0 by {
            assert(pre.levels@[i].len() == 0);
            if i < hm {
                assert(gp[i] + 1 < pre.levels@[i].len());
            }
        }

        // (e) the count follows the level-0 chain
        pre.levels@[0].remove_ensures(gp[0] + 1);
        assert(self.levels@[0].len() == pre.levels@[0].len() - 1);

        // (f) the record sequence lost exactly the record at the found spot
        let nc0 = self.levels@[0];
        let c0 = pre.levels@[0];
        let q0 = gp[0] + 1;
        pre@.remove_ensures(q0);
        assert(chain_ok_in(pn, pre.header@, 0, c0));
        assert forall|k: int|
            0 <= k < self@.len() implies #[trigger] self@[k] == pre@.remove(q0)[k] by {
            assert(self@[k] == (off_in(nodes, nc0[k] as int), nd_in(nodes, nc0[k] as int).command@));
            let j: int = if k < q0 { k } else { k + 1 };
            assert(nc0[k] == c0[j]);
            assert(entry_ok_in(pn, 0, c0, j));
            assert(c0[j] != m) by {
                if j != q0 {
                    assert(off_in(pn, c0[q0] as int) != off_in(pn, c0[j] as int));
                }
            }
            assert(pre@[j] == (off_in(pn, c0[j] as int), nd_in(pn, c0[j] as int).command@));
        }
        assert(self@ =~= pre@.remove(q0));
    }

    /// Removes the record keyed by `offset`, wherever it stands, and returns
    /// its fields. Absence is a routine outcome: the list is left untouched.
    pub fn remove(&mut self, offset: u64) -> (r: Option<(u64, String)>)
        requires
            old(self).wf(),
        ensures
            final(self).wf(),
            final(self).num_levels() == old(self).num_levels(),
            !has_key(old(self)@, offset) ==> r is None && *final(self) == *old(self),
            has_key(old(self)@, offset) ==> (r matches Some(pr) && pr.0 == offset && lookup(
                old(self)@,
                offset,
            ) == Some(pr.1@) && final(self)@ == old(self)@.remove(
                index_for(old(self)@, offset),
            )),
    {
        let (update, gpos) = self.search(offset);
        proof {
            assert(is_pred_in(self.nodes@, self.levels@, 0, gpos@[0], offset));
            assert(update@[0] == pred_link_in(self.levels@, 0, gpos@[0]));
            assert(chain_ok_in(self.nodes@, self.header@, 0, self.levels@[0]));
            if gpos@[0] >= 0 {
                assert(entry_ok_in(self.nodes@, 0, self.levels@[0], gpos@[0]));
            }
        }
        let u0 = update[0];
        let nxt = self.next_link(&u0, 0);
        let m = match nxt {
            Some(m) => {
                proof {
                    assert(entry_ok_in(self.nodes@, 0, self.levels@[0], gpos@[0] + 1));
                }
                if self.node_offset(m) == offset {
                    m
                } else {
                    proof {
                        self.lemma_no_key(offset, gpos@[0]);
                    }
                    return None;
                }
            },
            None => {
                proof {
                    self.lemma_no_key(offset, gpos@[0]);
                }
                return None;
            },
        };
        let ghost pre = *self;
        let ghost q0: int = gpos@[0] + 1;
        proof {
            assert(pre == *old(self));
            assert(pre@[q0].0 == offset);
            // every other live node carries another offset
            assert forall|n: usize|
                live_in(pre.nodes@, n as int) && n != m implies off_in(pre.nodes@, n as int)
                != offset by {
                assert(pre.levels@[0].contains(n));
                let k = choose|k: int|
                    0 <= k < pre.levels@[0].len() && #[trigger] pre.levels@[0][k] == n;
                assert(entry_ok_in(pre.nodes@, 0, pre.levels@[0], k));
                if k != q0 {
                    assert(off_in(pre.nodes@, pre.levels@[0][q0] as int) != off_in(
                        pre.nodes@,
                        pre.levels@[0][k] as int,
                    ));
                } else {
                    assert(n == m);
                }
            }
        }
        let hm = self.node_height(m);
        proof {
            // at each level of its tower, the node follows its predecessor
            assert forall|i: int|
                0 <= i < hm implies #[trigger] gpos@[i] + 1 < pre.levels@[i].len()
                && pre.levels@[i][gpos@[i] + 1] == m by {
                assert(pre.levels@[i].contains(m));
                let c = pre.levels@[i];
                let k = choose|k: int| 0 <= k < c.len() && #[trigger] c[k] == m;
                assert(chain_ok_in(pre.nodes@, pre.header@, i, c));
                assert(is_pred_in(pre.nodes@, pre.levels@, i, gpos@[i], offset));
                if k <= gpos@[i] {
                    assert(off_in(pre.nodes@, c[k] as int) < offset);
                }
                if k > gpos@[i] + 1 {
                    assert(off_in(pre.nodes@, c[gpos@[i] + 1] as int) >= offset);
                    assert(off_in(pre.nodes@, c[gpos@[i] + 1] as int) < off_in(
                        pre.nodes@,
                        c[k] as int,
                    ));
                }
            }
        }

        // unsplice the node from each level of its tower
        let mut i: usize = 0;
        while i < hm
            invariant
                i <= hm,
                pre.wf(),
                live_in(pre.nodes@, m as int),
                off_in(pre.nodes@, m as int) == offset,
                hm as int == height_in(pre.nodes@, m as int),
                search_ok_in(pre.nodes@, pre.levels@, offset, update@, gpos@),
                update@.len() == pre.header@.len(),
                forall|j: int|
                    0 <= j < hm ==> #[trigger] gpos@[j] + 1 < pre.levels@[j].len()
                        && pre.levels@[j][gpos@[j] + 1] == m,
                self.header@.len() == pre.header@.len(),
                self.levels@ == pre.levels@,
                self.max_level == pre.max_level,
                self.length == pre.length,
                self.nodes@.len() == pre.nodes@.len(),
                self.nodes@[m as int] == pre.nodes@[m as int],
                forall|n: int|
                    #![trigger live_in(self.nodes@, n)]
                    #![trigger live_in(pre.nodes@, n)]
                    0 <= n < pre.nodes@.len() ==> (live_in(self.nodes@, n) <==> live_in(
                        pre.nodes@,
                        n,
                    )),
                forall|n: int|
                    #![trigger live_in(pre.nodes@, n)]
                    0 <= n < pre.nodes@.len() && live_in(pre.nodes@, n) ==> off_in(self.nodes@, n)
                        == off_in(pre.nodes@, n) && nd_in(self.nodes@, n).command == nd_in(
                        pre.nodes@,
                        n,
                    ).command && height_in(self.nodes@, n) == height_in(pre.nodes@, n),
                forall|n: int, j: int|
                    0 <= n < pre.nodes@.len() && live_in(pre.nodes@, n) && 0 <= j < height_in(
                        pre.nodes@,
                        n,
                    ) ==> #[trigger] fwd_in(self.nodes@, n, j) == (if j < i && gpos@[j] >= 0
                        && pre.levels@[j][gpos@[j]] == n {
                        fwd_in(pre.nodes@, m as int, j)
                    } else {
                        fwd_in(pre.nodes@, n, j)
                    }),
                forall|j: int|
                    0 <= j < pre.header@.len() ==> #[trigger] self.header@[j] == (if j < i
                        && gpos@[j] == -1 {
                        fwd_in(pre.nodes@, m as int, j)
                    } else {
                        pre.header@[j]
                    }),
            decreases hm - i,
        {
            proof {
                assert(is_pred_in(pre.nodes@, pre.levels@, i as int, gpos@[i as int], offset));
                assert(update@[i as int] == pred_link_in(pre.levels@, i as int, gpos@[i as int]));
                assert(chain_ok_in(pre.nodes@, pre.header@, i as int, pre.levels@[i as int]));
                if gpos@[i as int] >= 0 {
                    assert(entry_ok_in(pre.nodes@, i as int, pre.levels@[i as int], gpos@[i as int]));
                }
                assert(entry_ok_in(pre.nodes@, i as int, pre.levels@[i as int], gpos@[i as int] + 1));
            }
            let mcur = Some(m);
            let mf = self.next_link(&mcur, i);
            proof {
                assert(mf == fwd_in(pre.nodes@, m as int, i as int));
            }
            let ghost before = *self;
            let uj = update[i];
            match uj {
                None => {
                    proof {
                        assert(gpos@[i as int] == -1);
                    }
                    self.header[i] = mf;
                },
                Some(p) => {
                    proof {
                        assert(gpos@[i as int] >= 0);
                        assert(pre.levels@[i as int][gpos@[i as int]] == p);
                        assert(off_in(pre.nodes@, p as int) < offset);
                        assert(p != m);
                        assert(live_in(before.nodes@, p as int));
                        assert(height_in(before.nodes@, p as int) == height_in(
                            pre.nodes@,
                            p as int,
                        ));
                        assert((i as int) < height_in(pre.nodes@, p as int));
                    }
                    self.set_forward(p, i, mf);
                    proof {
                        assert forall|n: int, j: int|
                            0 <= n < pre.nodes@.len() && live_in(pre.nodes@, n) && 0 <= j
                                < height_in(pre.nodes@, n) implies #[trigger] fwd_in(
                            self.nodes@,
                            n,
                            j,
                        ) == (if j < i + 1 && gpos@[j] >= 0 && pre.levels@[j][gpos@[j]] == n {
                            fwd_in(pre.nodes@, m as int, j)
                        } else {
                            fwd_in(pre.nodes@, n, j)
                        }) by {
                            assert(fwd_in(before.nodes@, n, j) == (if j < i && gpos@[j] >= 0
                                && pre.levels@[j][gpos@[j]] == n {
                                fwd_in(pre.nodes@, m as int, j)
                            } else {
                                fwd_in(pre.nodes@, n, j)
                            }));
                            if n == p as int {
                                assert(nd_in(self.nodes@, n).forward@ == nd_in(
                                    before.nodes@,
                                    n,
                                ).forward@.update(i as int, mf));
                            } else {
                                assert(self.nodes@[n] == before.nodes@[n]);
                            }
                        }
                        assert(self.nodes@[m as int] == pre.nodes@[m as int]);
                    }
                },
            }
            i = i + 1;
        }

        // release the node's slot and take its fields
        let ghost sloop = *self;
        let mut slot: Option<Node> = None;
        core::mem::swap(&mut slot, &mut self.nodes[m]);
        proof {
            assert(slot == pre.nodes@[m as int]);
            assert(!(self.nodes@[m as int] is Some));
            assert forall|n: int| 0 <= n < pre.nodes@.len() && n != m implies self.nodes@[n]
                == sloop.nodes@[n] by {}
            assert forall|n: int|
                #![trigger live_in(self.nodes@, n)]
                #![trigger live_in(pre.nodes@, n)]
                0 <= n < pre.nodes@.len() && n != m implies (live_in(self.nodes@, n) <==> live_in(
                pre.nodes@,
                n,
            )) by {
                assert(self.nodes@[n] == sloop.nodes@[n]);
                assert(live_in(sloop.nodes@, n) <==> live_in(pre.nodes@, n));
            }
            assert forall|n: int|
                #![trigger live_in(pre.nodes@, n)]
                0 <= n < pre.nodes@.len() && n != m && live_in(pre.nodes@, n) implies off_in(
                self.nodes@,
                n,
            ) == off_in(pre.nodes@, n) && nd_in(self.nodes@, n).command == nd_in(
                pre.nodes@,
                n,
            ).command && height_in(self.nodes@, n) == height_in(pre.nodes@, n) by {
                assert(self.nodes@[n] == sloop.nodes@[n]);
                assert(off_in(sloop.nodes@, n) == off_in(pre.nodes@, n));
            }
            assert forall|n: int, j: int|
                0 <= n < pre.nodes@.len() && n != m && live_in(pre.nodes@, n) && 0 <= j
                    < height_in(pre.nodes@, n) implies #[trigger] fwd_in(self.nodes@, n, j) == (
            if j < hm && gpos@[j] >= 0 && pre.levels@[j][gpos@[j]] == n {
                fwd_in(pre.nodes@, m as int, j)
            } else {
                fwd_in(pre.nodes@, n, j)
            }) by {
                assert(self.nodes@[n] == sloop.nodes@[n]);
                assert(fwd_in(sloop.nodes@, n, j) == (if j < hm && gpos@[j] >= 0
                    && pre.levels@[j][gpos@[j]] == n {
                    fwd_in(pre.nodes@, m as int, j)
                } else {
                    fwd_in(pre.nodes@, n, j)
                }));
            }
        }
        self.length = self.length - 1;
        let ghost newlevels = Seq::new(
            pre.levels@.len(),
            |j: int|
                if j < hm {
                    pre.levels@[j].remove(gpos@[j] + 1)
                } else {
                    pre.levels@[j]
                },
        );
        proof {
            self.levels@ = newlevels;
        }
        proof {
            self.lemma_remove_restores(pre, offset, gpos@, hm as int, m);
        }

        // shrink `max_level` while its chain has emptied out
        loop
            invariant
                self.wf_core(),
                (self.max_level as int) < self.header@.len(),
                forall|j: int|
                    (self.max_level as int) < j < self.levels@.len() ==> (
                    #[trigger] self.levels@[j]).len() == 0,
                self.levels@ == newlevels,
                self.nodes@.len() == pre.nodes@.len(),
                self.length == pre.length - 1,
                self.header@.len() == pre.header@.len(),
                self@ == pre@.remove(gpos@[0] + 1),
            ensures
                self.wf(),
                self.levels@ == newlevels,
                self.header@.len() == pre.header@.len(),
                self.length == pre.length - 1,
                self@ == pre@.remove(gpos@[0] + 1),
            decreases self.max_level,
        {
            if self.max_level == 0 {
                break ;
            }
            let hd = self.header[self.max_level];
            match hd {
                Some(_) => {
                    proof {
                        assert(chain_ok_in(
                            self.nodes@,
                            self.header@,
                            self.max_level as int,
                            self.levels@[self.max_level as int],
                        ));
                    }
                    break ;
                },
                None => {
                    proof {
                        assert(chain_ok_in(
                            self.nodes@,
                            self.header@,
                            self.max_level as int,
                            self.levels@[self.max_level as int],
                        ));
                        assert(self.levels@[self.max_level as int].len() == 0);
                    }
                    self.max_level = self.max_level - 1;
                },
            }
        }

        proof {
            // the returned record and the view shape
            assert forall|k: int| 0 <= k <= gpos@[0] implies (#[trigger] pre@[k]).0 < offset by {
                assert(pre@[k].0 == off_in(pre.nodes@, pre.levels@[0][k] as int));
            }
            if q0 < pre@.len() {
                assert(pre@[q0].0 == off_in(pre.nodes@, pre.levels@[0][q0] as int));
            }
            lemma_index_for_at(pre@, offset, gpos@[0]);
            pre.lemma_sorted();
            lemma_lookup_found(pre@, offset, q0);
        }
        match slot {
            Some(node) => {
                proof {
                    assert(node == nd_in(pre.nodes@, m as int));
                    assert(pre@[q0].1 == node.command@);
                }
                Some((node.offset, node.command))
            },
            None => {
                proof {
                    assert(false);
                }
                None
            },
        }
    }
}

/// The chain member after position `p` at level `i`, if any.
spec fn succ_link(levels: Seq<Seq<usize>>, i: int, p: int) -> Option<usize> {
    if p + 1 < levels[i].len() {
        Some(levels[i][p + 1])
    } else {
        None::<usize>
    }
}

/// Position `p` in the level-`i` chain (`-1` standing for the header) with
/// every member up to `p` keyed below `offset`.
spec fn cursor_ok_in(
    nodes: Seq<Option<Node>>,
    levels: Seq<Seq<usize>>,
    i: int,
    p: int,
    u: Option<usize>,
    offset: u64,
) -> bool {
    let c = levels[i];
    &&& -1 <= p < c.len()
    &&& u == (if p == -1 {
        None::<usize>
    } else {
        Some(c[p])
    })
    &&& forall|k: int| 0 <= k <= p ==> off_in(nodes, #[trigger] c[k] as int) < offset
}

/// Draws a tower height: starting from 1, the height grows while a fair coin
/// flip succeeds, capped at `cap`. The state is stepped with a xorshift on
/// `u64`, and one bit of it decides each flip.
fn random_level(state: &mut u64, cap: usize) -> (h: usize)
    requires
        cap >= 1,
    ensures
        1 <= h <= cap,
{
    let mut h: usize = 1;
    while h < cap
        invariant
            1 <= h <= cap,
        ensures
            1 <= h <= cap,
        decreases cap - h,
    {
        let mut x = *state;
        x = x ^ (x << 13);
        x = x ^ (x >> 7);
        x = x ^ (x << 17);
        *state = x;
        if x & 1 == 0 {
            break ;
        }
        h = h + 1;
    }
    h
}

} // verus!
