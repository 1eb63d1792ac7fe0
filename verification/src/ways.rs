//! Chains of node identifiers and the greedy pass that joins chains
//! sharing an endpoint.

use vstd::prelude::*;

verus! {

/// A path through numbered nodes.
#[derive(Clone, Debug)]
pub struct Way {
    pub id: usize,
    pub nodes: Vec<usize>,
}

/// The first node of a way, or 0 when it is empty.
pub open spec fn way_first(w: Way) -> usize {
    if w.nodes@.len() == 0 {
        0
    } else {
        w.nodes@[0]
    }
}

/// The last node of a way, or 0 when it is empty.
pub open spec fn way_last(w: Way) -> usize {
    if w.nodes@.len() == 0 {
        0
    } else {
        w.nodes@[w.nodes@.len() - 1]
    }
}

/// `w` is one of the ways of `orig`.
pub open spec fn from_orig(w: Way, orig: Seq<Way>) -> bool {
    exists|i: int| 0 <= i < orig.len() && w == #[trigger] orig[i]
}

/// `w` is some way of `orig`, possibly grown at its end: it keeps that
/// way's id and starts with that way's nodes.
pub open spec fn chained_from(w: Way, orig: Seq<Way>) -> bool {
    exists|i: int|
        0 <= i < orig.len() && w.id == (#[trigger] orig[i]).id && orig[i].nodes@.is_prefix_of(
            w.nodes@,
        )
}

/// No way of `ways` starts where a way of `result` ends.
pub open spec fn no_attach(result: Seq<Way>, ways: Seq<Way>) -> bool {
    forall|j: int, k: int|
        0 <= j < result.len() && 0 <= k < ways.len() ==> way_first(#[trigger] ways[k]) != way_last(
            #[trigger] result[j],
        )
}

/// No emitted chain starts where an earlier chain ends.
pub open spec fn chains_separate(result: Seq<Way>) -> bool {
    forall|j: int, k: int|
        0 <= j < k < result.len() ==> way_first(#[trigger] result[k]) != way_last(
            #[trigger] result[j],
        )
}

/// Every way has at least one node.
pub open spec fn all_nonempty(ways: Seq<Way>) -> bool {
    forall|i: int| 0 <= i < ways.len() ==> (#[trigger] ways[i]).nodes@.len() > 0
}

proof fn lemma_prefix_refl(s: Seq<usize>)
    ensures
        s.is_prefix_of(s),
{
    assert(s =~= s.subrange(0, s.len() as int));
}

proof fn lemma_prefix_chain(a: Seq<usize>, b: Seq<usize>, c: Seq<usize>)
    requires
        a.is_prefix_of(b),
        b.is_prefix_of(c),
    ensures
        a.is_prefix_of(c),
{
    assert(a =~= c.subrange(0, a.len() as int));
}

impl Way {
    /// Appends `other` to this way, skipping `other`'s first node (the
    /// shared joint); ways of fewer than two nodes contribute nothing.
    pub fn extend(&mut self, other: Way)
        ensures
            final(self).id == old(self).id,
            final(self).nodes@ == if other.nodes@.len() >= 2 {
                old(self).nodes@ + other.nodes@.skip(1)
            } else {
                old(self).nodes@
            },
    {
        if other.nodes.len() >= 2 {
            let mut i: usize = 1;
            while i < other.nodes.len()
                invariant
                    1 <= i <= other.nodes@.len(),
                    other.nodes@.len() >= 2,
                    self.id == old(self).id,
                    self.nodes@ == old(self).nodes@ + other.nodes@.subrange(1, i as int),
                decreases other.nodes@.len() - i,
            {
                let v = other.nodes[i];
                self.nodes.push(v);
                proof {
                    assert(self.nodes@ =~= old(self).nodes@ + other.nodes@.subrange(
                        1,
                        i as int + 1,
                    ));
                }
                i += 1;
            }
            proof {
                assert(other.nodes@.subrange(1, other.nodes@.len() as int) =~= other.nodes@.skip(
                    1,
                ));
            }
        }
    }

    /// Appends all of `other`'s nodes in reverse order; ways of fewer than
    /// two nodes contribute nothing.
    pub fn extend_reverse(&mut self, other: Way)
        ensures
            final(self).id == old(self).id,
            final(self).nodes@.len() == if other.nodes@.len() >= 2 {
                old(self).nodes@.len() + other.nodes@.len()
            } else {
                old(self).nodes@.len()
            },
            forall|j: int|
                0 <= j < old(self).nodes@.len() ==> final(self).nodes@[j] == old(self).nodes@[j],
            other.nodes@.len() >= 2 ==> forall|j: int|
                0 <= j < other.nodes@.len() ==> #[trigger] final(self).nodes@[old(
                    self,
                ).nodes@.len() + j] == other.nodes@[other.nodes@.len() - 1 - j],
    {
        if other.nodes.len() >= 2 {
            let mut i: usize = other.nodes.len();
            while i > 0
                invariant
                    0 <= i <= other.nodes@.len(),
                    self.id == old(self).id,
                    self.nodes@.len() == old(self).nodes@.len() + other.nodes@.len() - i,
                    forall|j: int|
                        0 <= j < old(self).nodes@.len() ==> self.nodes@[j] == old(self).nodes@[j],
                    forall|j: int|
                        0 <= j < other.nodes@.len() - i ==> #[trigger] self.nodes@[old(
                            self,
                        ).nodes@.len() + j] == other.nodes@[other.nodes@.len() - 1 - j],
                decreases i,
            {
                i -= 1;
                let v = other.nodes[i];
                self.nodes.push(v);
            }
        }
    }
}

/// Finds the first way whose first node (attach forward) or last node
/// (attach reversed) equals `last_node`; when none matches, no way of the
/// collection starts or ends with `last_node`.
fn find_attachable(ways: &Vec<Way>, last_node: usize) -> (found: Option<(usize, bool)>)
    ensures
        found matches Some((i, _)) ==> i < ways@.len(),
        found is None ==> forall|k: int|
            0 <= k < ways@.len() ==> way_first(#[trigger] ways@[k]) != last_node && way_last(
                ways@[k],
            ) != last_node,
{
    let mut index: usize = 0;
    while index < ways.len()
        invariant
            0 <= index <= ways@.len(),
            forall|k: int|
                0 <= k < index ==> way_first(#[trigger] ways@[k]) != last_node && way_last(
                    ways@[k],
                ) != last_node,
        decreases ways@.len() - index,
    {
        let other = &ways[index];
        let first = if other.nodes.len() > 0 {
            other.nodes[0]
        } else {
            0
        };
        let lst = if other.nodes.len() > 0 {
            other.nodes[other.nodes.len() - 1]
        } else {
            0
        };
        if first == last_node {
            return Some((index, false));
        }
        if lst == last_node {
            return Some((index, true));
        }
        index += 1;
    }
    None
}

/// Greedily joins ways that share an endpoint: repeatedly takes the last
/// remaining way and absorbs any way whose first or last node equals the
/// current way's last node, reversing in the latter case, until no way can
/// be attached; the fully grown way is then emitted. Every emitted way is
/// an input way grown at its end (its id and leading nodes are that
/// input's), and — when no input way is empty — no emitted chain starts
/// where an earlier one ends: nothing attachable is left unattached.
pub fn combine_ways(ways: Vec<Way>) -> (result: Vec<Way>)
    ensures
        result@.len() <= ways@.len(),
        ways@.len() > 0 ==> result@.len() >= 1,
        ways@.len() == 0 ==> result@.len() == 0,
        forall|j: int| 0 <= j < result@.len() ==> chained_from(#[trigger] result@[j], ways@),
        all_nonempty(ways@) ==> chains_separate(result@),
{
    let ghost orig = ways@;
    let mut ways = ways;
    let ghost n0 = ways@.len();
    let mut result: Vec<Way> = Vec::new();
    loop
        invariant
            result@.len() + ways@.len() <= n0,
            result@.len() >= 1 || ways@.len() == n0,
            n0 == orig.len(),
            forall|k: int| 0 <= k < ways@.len() ==> from_orig(#[trigger] ways@[k], orig),
            forall|j: int| 0 <= j < result@.len() ==> chained_from(#[trigger] result@[j], orig),
            all_nonempty(orig) ==> no_attach(result@, ways@) && chains_separate(result@),
        ensures
            ways@.len() == 0,
            result@.len() <= n0,
            n0 > 0 ==> result@.len() >= 1,
            forall|j: int| 0 <= j < result@.len() ==> chained_from(#[trigger] result@[j], orig),
            all_nonempty(orig) ==> chains_separate(result@),
        decreases ways@.len(),
    {
        let ghost ways_before = ways@;
        let mut way = match ways.pop() {
            Some(w) => w,
            None => { break ; },
        };
        proof {
            assert(from_orig(way, orig));
            let i0 = choose|i: int| 0 <= i < orig.len() && way == orig[i];
            lemma_prefix_refl(way.nodes@);
            assert(way.id == orig[i0].id && orig[i0].nodes@.is_prefix_of(way.nodes@));
            assert(chained_from(way, orig));
            if all_nonempty(orig) {
                assert(way.nodes@.len() > 0);
                assert forall|j: int| 0 <= j < result@.len() implies way_first(way) != way_last(
                    #[trigger] result@[j],
                ) by {
                    assert(way_first(ways_before[ways_before.len() - 1]) != way_last(result@[j]));
                }
            }
        }
        let ghost w0 = ways@.len();
        loop
            invariant_except_break
                result@.len() + ways@.len() < n0,
                chained_from(way, orig),
                all_nonempty(orig) ==> way.nodes@.len() > 0 && (forall|j: int|
                    0 <= j < result@.len() ==> way_first(way) != way_last(#[trigger] result@[j])),
                all_nonempty(orig) ==> no_attach(result@, ways@) && chains_separate(result@),
                forall|j: int|
                    0 <= j < result@.len() ==> chained_from(#[trigger] result@[j], orig),
            invariant
                ways@.len() <= w0,
                n0 == orig.len(),
                forall|k: int| 0 <= k < ways@.len() ==> from_orig(#[trigger] ways@[k], orig),
            ensures
                result@.len() + ways@.len() <= n0,
                result@.len() >= 1,
                ways@.len() <= w0,
                forall|k: int| 0 <= k < ways@.len() ==> from_orig(#[trigger] ways@[k], orig),
                forall|j: int|
                    0 <= j < result@.len() ==> chained_from(#[trigger] result@[j], orig),
                all_nonempty(orig) ==> no_attach(result@, ways@) && chains_separate(result@),
            decreases ways@.len(),
        {
            let last_node = if way.nodes.len() > 0 {
                way.nodes[way.nodes.len() - 1]
            } else {
                0
            };
            proof {
                assert(last_node == way_last(way));
            }
            match find_attachable(&ways, last_node) {
                Some((i, rev)) => {
                    let ghost ways_mid = ways@;
                    let other = ways.remove(i);
                    proof {
                        assert(from_orig(other, orig));
                        assert forall|k: int| 0 <= k < ways@.len() implies from_orig(
                            #[trigger] ways@[k],
                            orig,
                        ) by {
                            if k < i {
                                assert(ways@[k] == ways_mid[k]);
                            } else {
                                assert(ways@[k] == ways_mid[k + 1]);
                            }
                        }
                    }
                    let ghost way_old = way;
                    if rev {
                        way.extend_reverse(other);
                    } else {
                        way.extend(other);
                    }
                    proof {
                        assert(way_old.nodes@.is_prefix_of(way.nodes@)) by {
                            assert(way_old.nodes@ =~= way.nodes@.subrange(
                                0,
                                way_old.nodes@.len() as int,
                            ));
                        }
                        let i0 = choose|i2: int|
                            0 <= i2 < orig.len() && way_old.id == (#[trigger] orig[i2]).id
                                && orig[i2].nodes@.is_prefix_of(way_old.nodes@);
                        lemma_prefix_chain(orig[i0].nodes@, way_old.nodes@, way.nodes@);
                        assert(chained_from(way, orig));
                        if all_nonempty(orig) {
                            assert(way.nodes@[0] == way_old.nodes@[0]);
                            assert(way_first(way) == way_first(way_old));
                        }
                    }
                },
                None => {
                    // no more appendable ways found
                    let ghost result_before = result@;
                    let ghost way_snap = way;
                    result.push(way);
                    proof {
                        assert(result@ == result_before.push(way_snap));
                        if all_nonempty(orig) {
                            assert forall|j: int, k: int|
                                0 <= j < result@.len() && 0 <= k < ways@.len() implies way_first(
                                #[trigger] ways@[k],
                            ) != way_last(#[trigger] result@[j]) by {
                                if j < result_before.len() {
                                    assert(result@[j] == result_before[j]);
                                } else {
                                    assert(result@[j] == way_snap);
                                    assert(way_first(ways@[k]) != last_node);
                                }
                            }
                            assert forall|j: int, k: int|
                                0 <= j < k < result@.len() implies way_first(
                                #[trigger] result@[k],
                            ) != way_last(#[trigger] result@[j]) by {
                                if k < result_before.len() {
                                    assert(result@[j] == result_before[j]);
                                    assert(result@[k] == result_before[k]);
                                } else {
                                    assert(result@[k] == way_snap);
                                    assert(result@[j] == result_before[j]);
                                    assert(way_first(way_snap) != way_last(result_before[j]));
                                }
                            }
                        }
                    }
                    break ;
                },
            }
        }
    }
    result
}

} // verus!
