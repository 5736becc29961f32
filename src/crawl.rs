use vstd::prelude::*;

verus! {

/// The quantity that is aggregated and displayed.
#[derive(Debug, Copy, Clone, PartialEq, Eq, Structural)]
pub enum DataType {
    FileSize,
    NumFiles,
}

/// What one entry contributes, in a given metric, given the length read from
/// its metadata (`None` where reading the metadata failed).
pub open spec fn spec_entry_size(data_type: DataType, metadata_len: Option<u64>) -> u64 {
    match data_type {
        DataType::FileSize => match metadata_len {
            Some(len) => len,
            None => 0,
        },
        DataType::NumFiles => 1,
    }
}

/// The contribution of one entry: its length in byte-size mode (zero when its
/// metadata could not be read), one in file-count mode.
pub fn get_size(data_type: DataType, metadata_len: Option<u64>) -> (r: u64)
    ensures
        r == spec_entry_size(data_type, metadata_len),
{
    match data_type {
        DataType::FileSize => match metadata_len {
            Some(len) => len,
            None => 0,
        },
        DataType::NumFiles => 1,
    }
}


/// The sum of the sizes of a sequence of labelled records.
pub open spec fn sum_sizes(s: Seq<(String, PathSizeRecord)>) -> int
    decreases s.len(),
{
    if s.len() == 0 {
        0
    } else {
        sum_sizes(s.drop_last()) + s.last().1.size
    }
}

/// The index of the first child keyed by `key`, or -1.
pub open spec fn key_index(cs: Seq<(String, PathSizeRecord)>, key: Seq<char>) -> int
    decreases cs.len(),
{
    if cs.len() == 0 {
        -1
    } else if key_index(cs.drop_last(), key) >= 0 {
        key_index(cs.drop_last(), key)
    } else if cs.last().0@ == key {
        cs.len() - 1
    } else {
        -1
    }
}

/// The total recorded at the node reached by the keys of `q`; zero where no
/// such node exists.
pub open spec fn size_at(r: PathSizeRecord, q: Seq<Seq<char>>) -> int
    decreases q.len(),
{
    if q.len() == 0 {
        r.size as int
    } else {
        let j = key_index(r.children@, q[0]);
        if j < 0 {
            0
        } else {
            size_at(r.children@[j].1, q.drop_first())
        }
    }
}

/// The keys of `q` lead, one after another, to a node of the trie.
pub open spec fn has_path(r: PathSizeRecord, q: Seq<Seq<char>>) -> bool
    decreases q.len(),
{
    q.len() == 0 || (key_index(r.children@, q[0]) >= 0 && has_path(
        r.children@[key_index(r.children@, q[0])].1,
        q.drop_first(),
    ))
}

/// `q` is a prefix of `s`.
pub open spec fn is_prefix(q: Seq<Seq<char>>, s: Seq<Seq<char>>) -> bool {
    q.len() <= s.len() && q == s.take(q.len() as int)
}

/// The path components as character sequences.
pub open spec fn comps_view(comps: Seq<String>) -> Seq<Seq<char>> {
    comps.map_values(|c: String| c@)
}

/// What merging a contribution of `size` at the key path `cv` does to a trie:
/// every node along the path, the root included, exists afterwards and grows
/// by `size`; every other node keeps its total; no other node appears or goes.
pub open spec fn merge_effect(o: PathSizeRecord, n: PathSizeRecord, cv: Seq<Seq<char>>, size: u64) -> bool {
    &&& forall|k: int| 0 <= k <= cv.len() ==> has_path(n, #[trigger] cv.take(k))
    &&& forall|q: Seq<Seq<char>>|
        #[trigger] size_at(n, q) == size_at(o, q) + (if is_prefix(q, cv) {
            size as int
        } else {
            0
        })
    &&& forall|q: Seq<Seq<char>>| #[trigger] has_path(n, q) <==> (has_path(o, q) || is_prefix(q, cv))
}

/// Merging two entries in either order gives tries with the same nodes and
/// the same totals.
pub proof fn lemma_merge_commutes(
    r: PathSizeRecord,
    a: PathSizeRecord,
    ab: PathSizeRecord,
    b: PathSizeRecord,
    ba: PathSizeRecord,
    c1: Seq<Seq<char>>,
    s1: u64,
    c2: Seq<Seq<char>>,
    s2: u64,
)
    requires
        merge_effect(r, a, c1, s1),
        merge_effect(a, ab, c2, s2),
        merge_effect(r, b, c2, s2),
        merge_effect(b, ba, c1, s1),
    ensures
        forall|q: Seq<Seq<char>>| #[trigger] has_path(ab, q) == has_path(ba, q),
        forall|q: Seq<Seq<char>>| #[trigger] size_at(ab, q) == size_at(ba, q),
{
    assert forall|q: Seq<Seq<char>>| #[trigger] has_path(ab, q) == has_path(ba, q) by {
        assert(has_path(a, q) <==> (has_path(r, q) || is_prefix(q, c1)));
        assert(has_path(b, q) <==> (has_path(r, q) || is_prefix(q, c2)));
    }
    assert forall|q: Seq<Seq<char>>| #[trigger] size_at(ab, q) == size_at(ba, q) by {
        assert(size_at(a, q) == size_at(r, q) + (if is_prefix(q, c1) { s1 as int } else { 0 }));
        assert(size_at(b, q) == size_at(r, q) + (if is_prefix(q, c2) { s2 as int } else { 0 }));
    }
}

pub proof fn lemma_key_index(cs: Seq<(String, PathSizeRecord)>, key: Seq<char>)
    ensures
        -1 <= key_index(cs, key) < cs.len(),
        key_index(cs, key) == -1 <==> forall|i: int| 0 <= i < cs.len() ==> cs[i].0@ != key,
        key_index(cs, key) >= 0 ==> cs[key_index(cs, key)].0@ == key && forall|i: int|
            0 <= i < key_index(cs, key) ==> cs[i].0@ != key,
    decreases cs.len(),
{
    if cs.len() > 0 {
        lemma_key_index(cs.drop_last(), key);
        assert forall|i: int| 0 <= i < cs.len() - 1 implies cs.drop_last()[i] == cs[i] by {}
    }
}

proof fn lemma_key_index_same_keys(a: Seq<(String, PathSizeRecord)>, b: Seq<(String, PathSizeRecord)>, key: Seq<char>)
    requires
        a.len() == b.len(),
        forall|i: int| 0 <= i < a.len() ==> a[i].0@ == b[i].0@,
    ensures
        key_index(a, key) == key_index(b, key),
    decreases a.len(),
{
    if a.len() > 0 {
        lemma_key_index_same_keys(a.drop_last(), b.drop_last(), key);
    }
}

proof fn lemma_size_at_empty(r: PathSizeRecord, q: Seq<Seq<char>>)
    requires
        r.size == 0,
        r.children@.len() == 0,
    ensures
        size_at(r, q) == 0,
        has_path(r, q) <==> q.len() == 0,
{
}

proof fn lemma_prefix_front(q: Seq<Seq<char>>, s: Seq<Seq<char>>)
    requires
        s.len() > 0,
        q.len() > 0,
    ensures
        is_prefix(q, s) <==> (q[0] == s[0] && is_prefix(q.drop_first(), s.drop_first())),
{
    if is_prefix(q, s) {
        assert(q.drop_first() =~= s.drop_first().take(q.len() - 1));
    }
    if q[0] == s[0] && is_prefix(q.drop_first(), s.drop_first()) {
        assert forall|m: int| 0 <= m < q.len() implies q[m] == s.take(q.len() as int)[m] by {
            if m > 0 {
                assert(q[m] == q.drop_first()[m - 1]);
            }
        }
        assert(q =~= s.take(q.len() as int));
    }
}

/// One node of the aggregation trie: the total merged under its path, the
/// part of it merged at exactly this path, and its children keyed by path
/// component, in the order they were first seen.
pub struct PathSizeRecord {
    pub size: u64,
    pub own_size: u64,
    pub data_type: DataType,
    pub children: Vec<(String, PathSizeRecord)>,
}

/// The whole aggregation: the scan root, the metric, and the trie.
pub struct PathSizeRecorder {
    pub root: String,
    pub data_type: DataType,
    pub data: PathSizeRecord,
}

impl PathSizeRecord {
    /// A node's total is its own contribution plus its children's totals, its
    /// children's keys are unique and they share its metric, and so on all the
    /// way down.
    pub open spec fn wf(self) -> bool
        decreases self,
    {
        &&& self.size == self.own_size + sum_sizes(self.children@)
        &&& forall|i: int|
            0 <= i < self.children@.len() ==> (#[trigger] self.children@[i]).1.data_type == self.data_type
        &&& forall|i: int, j: int|
            0 <= i < j < self.children@.len() ==> self.children@[i].0@ != self.children@[j].0@
        &&& forall|i: int|
            0 <= i < self.children@.len() ==> (#[trigger] self.children@[i]).1.wf()
    }

    pub fn new(data_type: DataType) -> (r: PathSizeRecord)
        ensures
            r.size == 0,
            r.own_size == 0,
            r.data_type == data_type,
            r.children@.len() == 0,
            r.wf(),
    {
        PathSizeRecord { size: 0, own_size: 0, data_type, children: Vec::new() }
    }
}

proof fn lemma_sum_update(s: Seq<(String, PathSizeRecord)>, j: int, e: (String, PathSizeRecord))
    requires
        0 <= j < s.len(),
    ensures
        sum_sizes(s.update(j, e)) == sum_sizes(s) - s[j].1.size + e.1.size,
    decreases s.len(),
{
    if j < s.len() - 1 {
        lemma_sum_update(s.drop_last(), j, e);
        assert(s.update(j, e).drop_last() =~= s.drop_last().update(j, e));
    } else {
        assert(s.update(j, e).drop_last() =~= s.drop_last());
    }
}

proof fn lemma_sum_bounds(s: Seq<(String, PathSizeRecord)>, j: int)
    requires
        0 <= j < s.len(),
    ensures
        s[j].1.size <= sum_sizes(s),
        0 <= sum_sizes(s),
    decreases s.len(),
{
    assert(sum_sizes(s) == sum_sizes(s.drop_last()) + s.last().1.size);
    if s.len() == 1 {
        assert(sum_sizes(s.drop_last()) == 0);
    }
    if j < s.len() - 1 {
        lemma_sum_bounds(s.drop_last(), j);
        assert(s.drop_last()[j] == s[j]);
    } else if s.len() > 1 {
        lemma_sum_bounds(s.drop_last(), 0);
    }
}

/// The index of the child keyed by `key`, if there is one.
fn find_child(children: &Vec<(String, PathSizeRecord)>, key: &String) -> (r: Option<usize>)
    ensures
        match r {
            Some(j) => j == key_index(children@, key@),
            None => key_index(children@, key@) == -1,
        },
{
    proof {
        lemma_key_index(children@, key@);
    }
    let mut i: usize = 0;
    while i < children.len()
        invariant
            i <= children@.len(),
            forall|k: int| 0 <= k < i ==> children@[k].0@ != key@,
        decreases children@.len() - i,
    {
        if children[i].0 == *key {
            proof {
                lemma_key_index(children@, key@);
                let ki = key_index(children@, key@);
                assert(ki >= 0);
                if ki < i {
                    assert(children@[ki].0@ != key@);
                }
            }
            return Some(i);
        }
        i = i + 1;
    }
    proof {
        lemma_key_index(children@, key@);
    }
    None
}

/// Adds `size` to `rec` and to every node along `comps[i..]` below it,
/// creating the nodes that are missing.
fn merge_into(rec: &mut PathSizeRecord, comps: &Vec<String>, i: usize, size: u64)
    requires
        old(rec).wf(),
        old(rec).size + size <= u64::MAX,
        i <= comps@.len(),
    ensures
        final(rec).wf(),
        final(rec).size == old(rec).size + size,
        final(rec).data_type == old(rec).data_type,
        ({
            let cv = comps_view(comps@).subrange(i as int, comps@.len() as int);
            &&& forall|k: int|
                0 <= k <= cv.len() ==> size_at(*final(rec), #[trigger] cv.take(k)) == size_at(
                    *old(rec),
                    cv.take(k),
                ) + size
            &&& forall|q: Seq<Seq<char>>|
                !is_prefix(q, cv) ==> #[trigger] size_at(*final(rec), q) == size_at(*old(rec), q)
            &&& forall|k: int| 0 <= k <= cv.len() ==> has_path(*final(rec), #[trigger] cv.take(k))
            &&& forall|q: Seq<Seq<char>>|
                #[trigger] has_path(*final(rec), q) <==> (has_path(*old(rec), q) || is_prefix(q, cv))
        }),
    decreases comps@.len() - i,
{
    let ghost cv = comps_view(comps@).subrange(i as int, comps@.len() as int);
    let ghost o = *rec;
    rec.size = rec.size + size;
    if i < comps.len() {
        let data_type = rec.data_type;
        let ghost key = comps@[i as int]@;
        let ghost found = key_index(o.children@, key) >= 0;
        proof {
            assert(cv[0] == key);
            lemma_key_index(o.children@, key);
        }
        let j: usize = match find_child(&rec.children, &comps[i]) {
            Some(j) => j,
            None => {
                let ghost prev = rec.children@;
                rec.children.push((comps[i].clone(), PathSizeRecord::new(data_type)));
                proof {
                    assert(rec.children@.drop_last() =~= prev);
                }
                rec.children.len() - 1
            },
        };
        let ghost before = rec.children@;
        let ghost old_child = before[j as int].1;
        proof {
            lemma_sum_bounds(before, j as int);
            assert(key_index(before, key) == j);
            if !found {
                assert(before.drop_last() =~= o.children@);
                lemma_size_at_empty(old_child, Seq::empty());
            } else {
                assert(before == o.children@);
            }
        }
        merge_into(&mut rec.children[j].1, comps, i + 1, size);
        proof {
            let after = rec.children@;
            lemma_sum_update(before, j as int, after[j as int]);
            assert(after =~= before.update(j as int, after[j as int]));
            let cvd = comps_view(comps@).subrange(i + 1, comps@.len() as int);
            assert(cvd =~= cv.drop_first());
            assert forall|key2: Seq<char>| key_index(after, key2) == key_index(before, key2) by {
                lemma_key_index_same_keys(after, before, key2);
            }
            assert forall|k: int| 0 <= k <= cv.len() implies size_at(*rec, #[trigger] cv.take(k))
                == size_at(o, cv.take(k)) + size by {
                if k > 0 {
                    let q = cv.take(k);
                    assert(q[0] == key);
                    assert(q.drop_first() =~= cvd.take(k - 1));
                    if !found {
                        lemma_size_at_empty(old_child, q.drop_first());
                    }
                }
            }
            assert forall|q: Seq<Seq<char>>| !is_prefix(q, cv) implies #[trigger] size_at(*rec, q)
                == size_at(o, q) by {
                if q.len() == 0 {
                    assert(q =~= cv.take(0));
                } else if q[0] == key {
                    if is_prefix(q.drop_first(), cvd) {
                        assert forall|m: int| 0 <= m < q.len() implies q[m] == cv.take(q.len() as int)[m] by {
                            if m > 0 {
                                assert(q[m] == q.drop_first()[m - 1]);
                                assert(cvd.take(q.len() - 1)[m - 1] == cv[m]);
                            }
                        }
                        assert(q =~= cv.take(q.len() as int));
                    }
                    if !found {
                        lemma_size_at_empty(old_child, q.drop_first());
                    }
                    assert(!is_prefix(q.drop_first(), cvd));
                    assert(size_at(after[j as int].1, q.drop_first()) == size_at(old_child, q.drop_first()));
                    assert(size_at(*rec, q) == size_at(after[j as int].1, q.drop_first()));
                    assert(size_at(o, q) == size_at(old_child, q.drop_first()));
                } else {
                    lemma_key_index(before, q[0]);
                    lemma_key_index(before, key);
                    if !found {
                        assert(before.drop_last() =~= o.children@);
                        lemma_key_index(o.children@, q[0]);
                    }
                }
            }
            assert forall|q: Seq<Seq<char>>|
                #[trigger] has_path(*rec, q) <==> (has_path(o, q) || is_prefix(q, cv)) by {
                if q.len() == 0 {
                    assert(q =~= cv.take(0));
                } else {
                    lemma_prefix_front(q, cv);
                    if q[0] == key {
                        if !found {
                            lemma_size_at_empty(old_child, q.drop_first());
                            if q.drop_first().len() == 0 {
                                assert(q.drop_first() =~= cvd.take(0));
                            }
                        }
                        assert(has_path(*rec, q) == has_path(after[j as int].1, q.drop_first()));
                    } else {
                        lemma_key_index(before, q[0]);
                        lemma_key_index(before, key);
                        if !found {
                            assert(before.drop_last() =~= o.children@);
                            lemma_key_index(o.children@, q[0]);
                        }
                    }
                }
            }
            assert forall|k: int| 0 <= k <= cv.len() implies has_path(*rec, #[trigger] cv.take(k)) by {
                assert(is_prefix(cv.take(k), cv));
                assert(has_path(*rec, cv.take(k)) <==> (has_path(o, cv.take(k)) || is_prefix(cv.take(k), cv)));
            }
        }
    } else {
        proof {
            if rec.children@.len() > 0 {
                lemma_sum_bounds(rec.children@, 0);
            }
        }
        rec.own_size = rec.own_size + size;
        proof {
            assert forall|q: Seq<Seq<char>>| !is_prefix(q, cv) implies #[trigger] size_at(*rec, q)
                == size_at(o, q) by {
                if q.len() == 0 {
                    assert(q =~= cv.take(0));
                }
            }
            assert forall|k: int| 0 <= k <= cv.len() implies size_at(*rec, #[trigger] cv.take(k))
                == size_at(o, cv.take(k)) + size by {
                assert(cv.take(k).len() == 0);
            }
            assert forall|q: Seq<Seq<char>>|
                #[trigger] has_path(*rec, q) <==> (has_path(o, q) || is_prefix(q, cv)) by {
                if q.len() == 0 {
                    assert(q =~= cv.take(0));
                }
            }
            assert forall|k: int| 0 <= k <= cv.len() implies has_path(*rec, #[trigger] cv.take(k)) by {
                assert(cv.take(k).len() == 0);
            }
        }
    }
}

impl PathSizeRecorder {
    pub open spec fn wf(self) -> bool {
        self.data.wf() && self.data.data_type == self.data_type
    }

    pub fn new(root: String, data_type: DataType) -> (r: PathSizeRecorder)
        ensures
            r.wf(),
            r.root == root,
            r.data_type == data_type,
            r.data.size == 0,
            r.data.children@.len() == 0,
    {
        PathSizeRecorder { root, data_type, data: PathSizeRecord::new(data_type) }
    }

    /// Folds one entry, given by its path components below the root and its
    /// contribution, into the trie.
    pub fn merge_entry(&mut self, components: &Vec<String>, size: u64)
        requires
            old(self).wf(),
            old(self).data.size + size <= u64::MAX,
        ensures
            final(self).wf(),
            final(self).data.size == old(self).data.size + size,
            merge_effect(old(self).data, final(self).data, comps_view(components@), size),
            final(self).root == old(self).root,
            final(self).data_type == old(self).data_type,
    {
        merge_into(&mut self.data, components, 0, size);
        proof {
            let cv = comps_view(components@);
            assert(cv.subrange(0, components@.len() as int) =~= cv);
            assert forall|q: Seq<Seq<char>>| #[trigger] size_at(self.data, q) == size_at(old(self).data, q) + (
            if is_prefix(q, cv) {
                size as int
            } else {
                0
            }) by {
                if is_prefix(q, cv) {
                    assert(size_at(self.data, cv.take(q.len() as int)) == size_at(
                        old(self).data,
                        cv.take(q.len() as int),
                    ) + size);
                }
            }
        }
    }
}

} // verus!
