use vstd::prelude::*;

use crate::chars::{copy_chars, same_chars};

verus! {

/// `p` is a prefix of `w`.
pub open spec fn prefix_of(p: Seq<char>, w: Seq<char>) -> bool {
    p.len() <= w.len() && w.take(p.len() as int) == p
}

/// Some inserted word starts with `p`.
pub open spec fn is_word_prefix(entries: Set<(Seq<char>, Seq<char>)>, p: Seq<char>) -> bool {
    exists|w: Seq<char>, d: Seq<char>| #[trigger] entries.contains((w, d)) && prefix_of(p, w)
}

/// The documents that hold some word starting with `p`.
pub open spec fn docs_under(entries: Set<(Seq<char>, Seq<char>)>, p: Seq<char>) -> Set<Seq<char>> {
    Set::new(
        |d: Seq<char>| exists|w: Seq<char>| #[trigger] entries.contains((w, d)) && prefix_of(p, w),
    )
}

/// The paths held in a vector, as a set.
pub open spec fn path_set(v: Seq<Vec<char>>) -> Set<Seq<char>> {
    Set::new(|d: Seq<char>| exists|i: int| 0 <= i < v.len() && (#[trigger] v[i])@ == d)
}

/// No path occurs twice.
pub open spec fn distinct_paths(v: Seq<Vec<char>>) -> bool {
    forall|i: int, j: int| 0 <= i < j < v.len() ==> (#[trigger] v[i])@ != (#[trigger] v[j])@
}

/// The entries after the first `k` characters of inserting `(word, doc)`.
pub open spec fn with_prefix(
    entries: Set<(Seq<char>, Seq<char>)>,
    word: Seq<char>,
    doc: Seq<char>,
    k: int,
) -> Set<(Seq<char>, Seq<char>)> {
    if k == 0 {
        entries
    } else {
        entries.insert((word.take(k), doc))
    }
}

/// Every non-empty prefix of an inserted word is found, and its documents
/// include the one the word was inserted with; a sequence that starts no
/// inserted word is not found.
pub proof fn lemma_prefix_lookup(
    entries: Set<(Seq<char>, Seq<char>)>,
    word: Seq<char>,
    doc: Seq<char>,
    p: Seq<char>,
)
    requires
        entries.contains((word, doc)),
        p.len() > 0,
        prefix_of(p, word),
    ensures
        is_word_prefix(entries, p),
        docs_under(entries, p).contains(doc),
{
}

/// A prefix tree over characters. Each node other than the root holds the set
/// of documents that hold some word passing through it.
pub struct Triee {
    ends: Vec<bool>,
    children: Vec<Vec<(char, usize)>>,
    paths: Vec<Vec<Vec<char>>>,
    /// The characters that lead from the root to each node, for listing.
    labels: Vec<Vec<char>>,
    /// The characters that lead from the root to each node.
    keys: Ghost<Seq<Seq<char>>>,
    /// The node that each key leads to.
    index_of: Ghost<Map<Seq<char>, int>>,
    /// Every `(word, document)` pair inserted so far.
    entries: Ghost<Set<(Seq<char>, Seq<char>)>>,
}

impl View for Triee {
    type V = Set<(Seq<char>, Seq<char>)>;

    closed spec fn view(&self) -> Set<(Seq<char>, Seq<char>)> {
        self.entries@
    }
}

impl Triee {
    /// The shape of the tree: node `0` is the root, edges lead to the node
    /// whose key is one character longer, and each key names one node.
    closed spec fn wf_shape(&self) -> bool {
        let n = self.keys@.len();
        let keys = self.keys@;
        let index_of = self.index_of@;
        &&& n >= 1
        &&& self.ends@.len() == n
        &&& self.children@.len() == n
        &&& self.paths@.len() == n
        &&& self.labels@.len() == n
        &&& forall|i: int| 0 <= i < n ==> (#[trigger] self.labels@[i])@ == keys[i]
        &&& keys[0] == Seq::<char>::empty()
        &&& forall|i: int, e: int|
            0 <= i < n && 0 <= e < self.children@[i]@.len() ==> {
                let (c, t) = #[trigger] self.children@[i]@[e];
                &&& 0 < t < n
                &&& keys[t as int] == keys[i].push(c)
            }
        &&& forall|i: int|
            0 <= i < n ==> index_of.contains_key(#[trigger] keys[i]) && index_of[keys[i]] == i
        &&& forall|p: Seq<char>|
            #[trigger] index_of.contains_key(p) ==> 0 <= index_of[p] < n && keys[index_of[p]] == p
        &&& forall|p: Seq<char>|
            #[trigger] index_of.contains_key(p) && p.len() > 0 ==> index_of.contains_key(
                p.drop_last(),
            )
        &&& forall|i: int, c: char|
            0 <= i < n && #[trigger] index_of.contains_key(keys[i].push(c)) ==> exists|e: int|
                0 <= e < self.children@[i]@.len() && (#[trigger] self.children@[i]@[e]).0 == c
    }

    /// The node contents agree with a set of entries.
    closed spec fn wf_contents(&self, entries: Set<(Seq<char>, Seq<char>)>) -> bool {
        let n = self.keys@.len();
        let keys = self.keys@;
        &&& forall|p: Seq<char>|
            p.len() > 0 && #[trigger] is_word_prefix(entries, p) ==> self.index_of@.contains_key(p)
        &&& self.paths@[0]@.len() == 0
        &&& forall|i: int| 0 < i < n ==> #[trigger] is_word_prefix(entries, keys[i])
        &&& forall|i: int|
            0 < i < n ==> path_set(#[trigger] self.paths@[i]@) == docs_under(entries, keys[i])
                && distinct_paths(self.paths@[i]@)
    }

    /// The end marks agree with a set of entries.
    closed spec fn wf_ends(&self, entries: Set<(Seq<char>, Seq<char>)>) -> bool {
        forall|i: int|
            0 < i < self.keys@.len() ==> #[trigger] self.ends@[i] == exists|d: Seq<char>|
                entries.contains((self.keys@[i], d))
    }

    pub closed spec fn wf(&self) -> bool {
        &&& self.wf_shape()
        &&& self.wf_contents(self.entries@)
        &&& self.wf_ends(self.entries@)
        &&& forall|w: Seq<char>, d: Seq<char>| #[trigger] self.entries@.contains((w, d)) ==> w.len() > 0
    }

    pub fn new() -> (r: Self)
        ensures
            r.wf(),
            r@ == Set::<(Seq<char>, Seq<char>)>::empty(),
    {
        let mut ends: Vec<bool> = Vec::new();
        ends.push(false);
        let mut children: Vec<Vec<(char, usize)>> = Vec::new();
        children.push(Vec::new());
        let mut paths: Vec<Vec<Vec<char>>> = Vec::new();
        paths.push(Vec::new());
        let mut labels: Vec<Vec<char>> = Vec::new();
        labels.push(Vec::new());
        let ghost keys = seq![Seq::<char>::empty()];
        let ghost index_of = map![Seq::<char>::empty() => 0int];
        let r = Triee {
            ends,
            children,
            paths,
            labels,
            keys: Ghost(keys),
            index_of: Ghost(index_of),
            entries: Ghost(Set::empty()),
        };
        assert forall|i: int, c: char|
            0 <= i < 1 && #[trigger] r.index_of@.contains_key(r.keys@[i].push(c)) implies false by {
            assert(r.keys@[i].push(c).len() == 1);
        }
        r
    }

    /// The child of node `node` along character `c`, if there is one.
    fn child(&self, node: usize, c: char) -> (r: Option<usize>)
        requires
            self.wf_shape(),
            node < self.keys@.len(),
        ensures
            match r {
                Some(t) => t < self.keys@.len() && self.keys@[t as int] == self.keys@[node as int].push(c),
                None => !self.index_of@.contains_key(self.keys@[node as int].push(c)),
            },
    {
        let edges = &self.children[node];
        let mut e: usize = 0;
        while e < edges.len()
            invariant
                self.wf_shape(),
                node < self.keys@.len(),
                edges@ == self.children@[node as int]@,
                e <= edges@.len(),
                forall|j: int| 0 <= j < e ==> (#[trigger] edges@[j]).0 != c,
            decreases edges@.len() - e,
        {
            if edges[e].0 == c {
                return Some(edges[e].1);
            }
            e += 1;
        }
        None
    }

    /// Adds a fresh node as the child of `node` along `c`.
    #[verifier::rlimit(40)]
    fn add_node(&mut self, node: usize, c: char) -> (t: usize)
        requires
            old(self).wf_shape(),
            node < old(self).keys@.len(),
            !old(self).index_of@.contains_key(old(self).keys@[node as int].push(c)),
        ensures
            final(self).wf_shape(),
            t == old(self).keys@.len(),
            final(self).keys@ == old(self).keys@.push(old(self).keys@[node as int].push(c)),
            final(self).index_of@ == old(self).index_of@.insert(
                old(self).keys@[node as int].push(c),
                t as int,
            ),
            final(self).paths@.len() == t + 1,
            final(self).paths@.take(t as int) == old(self).paths@,
            final(self).paths@[t as int]@.len() == 0,
            final(self).ends@ == old(self).ends@.push(false),
            final(self).entries == old(self).entries,
    {
        let t = self.children.len();
        let ghost key = self.keys@[node as int].push(c);
        let ghost old_self = *self;
        let mut label = copy_chars(self.labels[node].as_slice());
        label.push(c);
        self.ends.push(false);
        self.paths.push(Vec::new());
        self.children.push(Vec::new());
        self.labels.push(label);
        let mut edges: Vec<(char, usize)> = Vec::new();
        self.children.set_and_swap(node, &mut edges);
        assert(edges@ == old_self.children@[node as int]@);
        edges.push((c, t));
        self.children.set_and_swap(node, &mut edges);
        assert(self.children@[node as int]@ == old_self.children@[node as int]@.push((c, t)));
        assert(forall|i: int| 0 <= i < t && i != node ==> self.children@[i] == old_self.children@[i]);
        assert(self.children@[t as int]@.len() == 0);
        self.keys = Ghost(self.keys@.push(key));
        self.index_of = Ghost(self.index_of@.insert(key, t as int));
        proof {
            let n = t as int + 1;
            let keys = self.keys@;
            assert forall|i: int| 0 <= i < n implies (#[trigger] self.labels@[i])@ == keys[i] by {
                if i < t {
                    assert(self.labels@[i] == old_self.labels@[i]);
                }
            }
            assert(keys.drop_last() =~= old_self.keys@);
            assert(key.drop_last() =~= old_self.keys@[node as int]);
            assert forall|i: int, e: int|
                0 <= i < n && 0 <= e < self.children@[i]@.len() implies {
                let (c2, t2) = #[trigger] self.children@[i]@[e];
                &&& 0 < t2 < n
                &&& keys[t2 as int] == keys[i].push(c2)
            } by {
                if i == node && e == self.children@[i]@.len() - 1 {
                } else {
                    assert(self.children@[i]@[e] == old_self.children@[i]@[e]);
                }
            }
            assert forall|i: int, c2: char|
                0 <= i < n && #[trigger] self.index_of@.contains_key(keys[i].push(c2)) implies exists|
                e: int,
            | 0 <= e < self.children@[i]@.len() && (#[trigger] self.children@[i]@[e]).0 == c2 by {
                if i == t {
                    assert(keys[i].push(c2).drop_last() =~= key);
                    assert(keys[i].push(c2) != key);
                    assert(old_self.index_of@.contains_key(keys[i].push(c2)));
                    assert(false);
                } else if keys[i].push(c2) == key {
                    assert(keys[i] =~= key.drop_last());
                    assert(i == node);
                    assert(keys[i].push(c2)[keys[i].len() as int] == c2);
                    assert(key[keys[i].len() as int] == c);
                    let e = self.children@[i]@.len() - 1;
                    assert(self.children@[i]@[e].0 == c2);
                } else {
                    assert(old_self.index_of@.contains_key(old_self.keys@[i].push(c2)));
                    let e = choose|e: int|
                        0 <= e < old_self.children@[i]@.len() && (
                        #[trigger] old_self.children@[i]@[e]).0 == c2;
                    assert(self.children@[i]@[e] == old_self.children@[i]@[e]);
                }
            }
        }
        t
    }

    /// Adds `doc` to the document set of `node`, where it is not there yet.
    fn add_path(&mut self, node: usize, doc: &Vec<char>)
        requires
            node < old(self).paths@.len(),
            distinct_paths(old(self).paths@[node as int]@),
        ensures
            final(self).paths@.len() == old(self).paths@.len(),
            forall|i: int| 0 <= i < old(self).paths@.len() && i != node ==> #[trigger] final(self).paths@[i] == old(self).paths@[i],
            path_set(final(self).paths@[node as int]@) == path_set(old(self).paths@[node as int]@).insert(doc@),
            distinct_paths(final(self).paths@[node as int]@),
            final(self).paths@[node as int]@.len() > 0,
            final(self).ends == old(self).ends,
            final(self).children == old(self).children,
            final(self).labels == old(self).labels,
            final(self).keys == old(self).keys,
            final(self).index_of == old(self).index_of,
            final(self).entries == old(self).entries,
    {
        let mut held: Vec<Vec<char>> = Vec::new();
        self.paths.set_and_swap(node, &mut held);
        let ghost before = held@;
        let mut i: usize = 0;
        let mut found = false;
        while i < held.len()
            invariant
                held@ == before,
                i <= held@.len(),
                !found ==> forall|j: int| 0 <= j < i ==> (#[trigger] held@[j])@ != doc@,
                found ==> i < held@.len() && held@[i as int]@ == doc@,
            ensures
                held@ == before,
                !found ==> i == held@.len(),
                !found ==> forall|j: int| 0 <= j < i ==> (#[trigger] held@[j])@ != doc@,
                found ==> i < held@.len() && held@[i as int]@ == doc@,
            decreases held@.len() - i,
        {
            if same_chars(&held[i], doc) {
                found = true;
                break;
            }
            i += 1;
        }
        assert(!found ==> forall|j: int| 0 <= j < before.len() ==> (#[trigger] before[j])@ != doc@);
        if !found {
            held.push(copy_chars(doc.as_slice()));
        }
        self.paths.set_and_swap(node, &mut held);
        proof {
            let after = self.paths@[node as int]@;
            if found {
                assert(before[i as int]@ == doc@);
                assert(path_set(after) =~= path_set(before).insert(doc@));
            } else {
                assert(after[before.len() as int]@ == doc@);
                assert forall|d: Seq<char>| path_set(after).contains(d) == path_set(before).insert(doc@).contains(d) by {
                    if path_set(after).contains(d) {
                        let j = choose|j: int| 0 <= j < after.len() && (#[trigger] after[j])@ == d;
                        if j < before.len() {
                            assert(after[j] == before[j]);
                        }
                    }
                    if path_set(before).contains(d) {
                        let j = choose|j: int| 0 <= j < before.len() && (#[trigger] before[j])@ == d;
                        assert(after[j] == before[j]);
                    }
                }
                assert(path_set(after) =~= path_set(before).insert(doc@));
                assert forall|a: int, b: int| 0 <= a < b < after.len() implies (#[trigger] after[a])@ != (#[trigger] after[b])@ by {
                    assert(after[a] == before[a]);
                    if b < before.len() {
                        assert(after[b] == before[b]);
                    }
                }
            }
        }
    }

    /// Records that `found_at` holds `word`: every node along `word` gains
    /// `found_at`, and the last one is marked as the end of a word.
    pub fn insert_word(&mut self, word: &[char], found_at: Vec<char>)
        requires
            old(self).wf(),
        ensures
            final(self).wf(),
            final(self)@ == if word@.len() == 0 {
                old(self)@
            } else {
                old(self)@.insert((word@, found_at@))
            },
    {
        Self::insert_static(self, word, &found_at);
    }

    #[verifier::rlimit(40)]
    fn insert_static(node: &mut Triee, word: &[char], found_at: &Vec<char>)
        requires
            old(node).wf(),
        ensures
            final(node).wf(),
            final(node)@ == if word@.len() == 0 {
                old(node)@
            } else {
                old(node)@.insert((word@, found_at@))
            },
    {
        if word.len() == 0 {
            return;
        }
        let ghost e0 = node.entries@;
        let ghost w = word@;
        let ghost d = found_at@;
        let mut cur: usize = 0;
        let mut k: usize = 0;
        while k < word.len()
            invariant
                node.wf_shape(),
                node.wf_contents(with_prefix(e0, w, d, k as int)),
                forall|i: int|
                    0 < i < node.keys@.len() ==> #[trigger] node.ends@[i] == ((exists|d2: Seq<char>|
                        e0.contains((node.keys@[i], d2))) || (k == w.len() && node.keys@[i] == w)),
                node.entries@ == e0,
                forall|w2: Seq<char>, d2: Seq<char>| #[trigger] e0.contains((w2, d2)) ==> w2.len() > 0,
                w == word@,
                d == found_at@,
                w.len() > 0,
                k <= w.len(),
                cur < node.keys@.len(),
                node.keys@[cur as int] == w.take(k as int),
            decreases w.len() - k,
        {
            let c = word[k];
            let ghost before = *node;
            let ghost ee = with_prefix(e0, w, d, k as int);
            let ghost ee2 = with_prefix(e0, w, d, k + 1);
            let ghost p_new = w.take(k + 1);
            proof {
                assert(w.take(k as int).push(c) =~= p_new);
            }
            let next = match node.child(cur, c) {
                Some(t) => t,
                None => node.add_node(cur, c),
            };
            let ghost mid = *node;
            let ghost is_new = next == before.keys@.len();
            proof {
                assert(mid.keys@[next as int] == p_new);
                assert(next > 0) by {
                    assert(mid.keys@[0].len() == 0);
                }
                if is_new {
                    assert(mid.paths@[next as int]@.len() == 0);
                } else {
                    assert(mid.paths@[next as int] == before.paths@[next as int]);
                }
                assert forall|i: int| 0 <= i < before.keys@.len() implies #[trigger] mid.paths@[i] == before.paths@[i] by {
                    if is_new {
                        assert(mid.paths@.take(next as int)[i] == mid.paths@[i]);
                    }
                }
                assert(distinct_paths(mid.paths@[next as int]@));
            }
            node.add_path(next, found_at);
            proof {
                assert(node.paths@.len() == mid.paths@.len());
                assert(node.wf_shape());
            }
            if k + 1 == word.len() {
                node.ends.set(next, true);
            }
            assert(node.wf_shape());
            proof {
                let n = node.keys@.len();
                let keys = node.keys@;
                // the node that was reached held exactly the documents under its key
                assert(path_set(mid.paths@[next as int]@) == docs_under(ee, p_new)) by {
                    if is_new {
                        assert(!is_word_prefix(ee, p_new));
                        assert(path_set(mid.paths@[next as int]@) =~= Set::empty());
                        assert(docs_under(ee, p_new) =~= Set::empty());
                    }
                }
                assert forall|q: Seq<char>| q.len() > 0 && #[trigger] is_word_prefix(ee2, q) implies node.index_of@.contains_key(q) by {
                    if is_word_prefix(ee, q) {
                        assert(before.index_of@.contains_key(q));
                    } else {
                        let (w2, d2) = choose|w2: Seq<char>, d2: Seq<char>| #[trigger] ee2.contains((w2, d2)) && prefix_of(q, w2);
                        if e0.contains((w2, d2)) {
                            assert(ee.contains((w2, d2)));
                            assert(false);
                        }
                        assert(w2 == p_new);
                        if q.len() <= k {
                            assert(ee.contains((w.take(k as int), d)));
                            assert(w.take(k as int).take(q.len() as int) =~= p_new.take(q.len() as int));
                            assert(prefix_of(q, w.take(k as int)));
                            assert(false);
                        }
                        assert(q =~= p_new);
                    }
                }
                assert forall|i: int| 0 < i < n implies #[trigger] is_word_prefix(ee2, keys[i]) by {
                    if i == next {
                        assert(ee2.contains((p_new, d)));
                        assert(p_new.take(p_new.len() as int) =~= p_new);
                        assert(prefix_of(keys[i], p_new));
                    } else {
                        assert(is_word_prefix(ee, keys[i]));
                        let (w2, d2) = choose|w2: Seq<char>, d2: Seq<char>| #[trigger] ee.contains((w2, d2)) && prefix_of(keys[i], w2);
                        if e0.contains((w2, d2)) {
                            assert(ee2.contains((w2, d2)));
                        } else {
                            assert(w2 == w.take(k as int) && d2 == d);
                            assert(p_new.take(keys[i].len() as int) =~= w2.take(keys[i].len() as int));
                            assert(ee2.contains((p_new, d)));
                            assert(prefix_of(keys[i], p_new));
                        }
                    }
                }
                assert forall|i: int| 0 < i < n implies path_set(#[trigger] node.paths@[i]@) == docs_under(ee2, keys[i])
                    && distinct_paths(node.paths@[i]@) by {
                    if i == next {
                        assert(ee2.contains((p_new, d)));
                        assert(p_new.take(p_new.len() as int) =~= p_new);
                        assert forall|d3: Seq<char>| docs_under(ee2, keys[i]).contains(d3) implies docs_under(ee, keys[i]).insert(d).contains(d3) by {
                            let w3 = choose|w3: Seq<char>| #[trigger] ee2.contains((w3, d3)) && prefix_of(keys[i], w3);
                            if d3 != d {
                                assert(e0.contains((w3, d3)));
                                assert(ee.contains((w3, d3)));
                            }
                        }
                        assert forall|d3: Seq<char>| docs_under(ee, keys[i]).insert(d).contains(d3) implies docs_under(ee2, keys[i]).contains(d3) by {
                            if d3 != d {
                                let w3 = choose|w3: Seq<char>| #[trigger] ee.contains((w3, d3)) && prefix_of(keys[i], w3);
                                assert(e0.contains((w3, d3)));
                                assert(ee2.contains((w3, d3)));
                            }
                        }
                        assert(docs_under(ee2, keys[i]) =~= docs_under(ee, keys[i]).insert(d));
                    } else {
                        assert(node.paths@[i] == before.paths@[i]);
                        assert(node.index_of@[keys[i]] == i);
                        assert(node.index_of@[keys[0]] == 0);
                        if keys[i].len() == 0 {
                            assert(keys[i] =~= keys[0]);
                        }
                        assert forall|d3: Seq<char>| docs_under(ee2, keys[i]).contains(d3) implies docs_under(ee, keys[i]).contains(d3) by {
                            let w3 = choose|w3: Seq<char>| #[trigger] ee2.contains((w3, d3)) && prefix_of(keys[i], w3);
                            if !ee.contains((w3, d3)) {
                                if e0.contains((w3, d3)) {
                                    assert(ee.contains((w3, d3)));
                                }
                                assert(w3 == p_new);
                                if keys[i].len() == k + 1 {
                                    assert(keys[i] =~= p_new);
                                    assert(false);
                                }
                                assert(ee.contains((w.take(k as int), d)));
                                assert(w.take(k as int).take(keys[i].len() as int) =~= p_new.take(keys[i].len() as int));
                                assert(prefix_of(keys[i], w.take(k as int)));
                            }
                        }
                        assert forall|d3: Seq<char>| docs_under(ee, keys[i]).contains(d3) implies docs_under(ee2, keys[i]).contains(d3) by {
                            let w3 = choose|w3: Seq<char>| #[trigger] ee.contains((w3, d3)) && prefix_of(keys[i], w3);
                            if e0.contains((w3, d3)) {
                                assert(ee2.contains((w3, d3)));
                            } else {
                                assert(w3 == w.take(k as int) && d3 == d);
                                assert(p_new.take(keys[i].len() as int) =~= w3.take(keys[i].len() as int));
                                assert(ee2.contains((p_new, d)));
                                assert(prefix_of(keys[i], p_new));
                            }
                        }
                        assert(docs_under(ee2, keys[i]) =~= docs_under(ee, keys[i]));
                    }
                }
                assert forall|i: int| 0 < i < n implies #[trigger] node.ends@[i] == ((exists|d2: Seq<char>|
                        e0.contains((keys[i], d2))) || (k + 1 == w.len() && keys[i] == w)) by {
                    if i == next {
                        if is_new {
                            if exists|d2: Seq<char>| e0.contains((keys[i], d2)) {
                                let d2 = choose|d2: Seq<char>| e0.contains((keys[i], d2));
                                assert(ee.contains((keys[i], d2)));
                                assert(prefix_of(keys[i], keys[i]));
                                assert(is_word_prefix(ee, p_new));
                            }
                        }
                        if k + 1 == w.len() {
                            assert(p_new =~= w);
                        } else {
                            assert(p_new.len() != w.len());
                        }
                    } else {
                        assert(node.ends@[i] == before.ends@[i]);
                        if k + 1 == w.len() && keys[i] == w {
                            assert(p_new =~= w);
                        }
                    }
                }
                assert(node.wf_contents(ee2));
            }
            cur = next;
            k += 1;
        }
        proof {
            assert(w.take(k as int) =~= w);
        }
        node.entries = Ghost(e0.insert((w, d)));
        proof {
            assert(node.wf_contents(node.entries@));
            assert forall|i: int| 0 < i < node.keys@.len() implies #[trigger] node.ends@[i] == exists|d2: Seq<char>|
                node.entries@.contains((node.keys@[i], d2)) by {
                let key = node.keys@[i];
                if key == w {
                    assert(node.entries@.contains((key, d)));
                } else {
                    if node.ends@[i] {
                        let d2 = choose|d2: Seq<char>| e0.contains((key, d2));
                        assert(node.entries@.contains((key, d2)));
                    }
                    if exists|d2: Seq<char>| node.entries@.contains((key, d2)) {
                        let d2 = choose|d2: Seq<char>| node.entries@.contains((key, d2));
                        assert(e0.contains((key, d2)));
                    }
                }
            }
            assert(node.wf_ends(node.entries@));
        }
    }

    /// Every inserted word, once, with the documents holding some word that
    /// starts with it.
    pub fn end_words(&self) -> (r: Vec<(Vec<char>, Vec<Vec<char>>)>)
        requires
            self.wf(),
        ensures
            forall|k: int|
                0 <= k < r@.len() ==> (exists|d: Seq<char>| self@.contains(((#[trigger] r@[k]).0@, d)))
                    && path_set(r@[k].1@) == docs_under(self@, r@[k].0@) && distinct_paths(r@[k].1@),
            forall|w: Seq<char>, d: Seq<char>|
                #[trigger] self@.contains((w, d)) ==> exists|k: int| 0 <= k < r@.len() && (#[trigger] r@[k]).0@ == w,
            forall|a: int, b: int| 0 <= a < b < r@.len() ==> (#[trigger] r@[a]).0@ != (#[trigger] r@[b]).0@,
    {
        let mut res: Vec<(Vec<char>, Vec<Vec<char>>)> = Vec::new();
        let mut i: usize = 1;
        let n = self.ends.len();
        while i < n
            invariant
                self.wf(),
                n == self.keys@.len(),
                1 <= i <= n,
                forall|k: int| 0 <= k < res@.len() ==> self.key_below(#[trigger] res@[k].0@, i as int),
                forall|k: int|
                    0 <= k < res@.len() ==> (exists|d: Seq<char>| self@.contains(((#[trigger] res@[k]).0@, d)))
                        && path_set(res@[k].1@) == docs_under(self@, res@[k].0@) && distinct_paths(res@[k].1@),
                forall|j: int| 0 < j < i && #[trigger] self.ends@[j] ==> exists|k: int| 0 <= k < res@.len() && (#[trigger] res@[k]).0@ == self.keys@[j],
                forall|a: int, b: int| 0 <= a < b < res@.len() ==> (#[trigger] res@[a]).0@ != (#[trigger] res@[b]).0@,
            decreases n - i,
        {
            proof {
                assert forall|k: int| 0 <= k < res@.len() implies self.key_below(#[trigger] res@[k].0@, i + 1) by {
                    let j = choose|j: int| 0 < j < i && self.keys@[j] == res@[k].0@;
                }
            }
            if self.ends[i] {
                let ghost r0 = res@;
                let word = copy_chars(self.labels[i].as_slice());
                let docs = self.copy_paths(i);
                res.push((word, docs));
                proof {
                    self.lemma_listing_step(r0, res@, i as int);
                }
            }
            i += 1;
        }
        proof {
            assert forall|w: Seq<char>, d: Seq<char>| #[trigger] self@.contains((w, d)) implies exists|k: int| 0 <= k < res@.len() && (#[trigger] res@[k]).0@ == w by {
                assert(w.take(w.len() as int) =~= w);
                assert(is_word_prefix(self@, w));
                let j = self.index_of@[w];
                assert(self.keys@[j] == w);
                assert(self.index_of@[self.keys@[0]] == 0);
                assert(j != 0);
                assert(self.ends@[j]);
            }
        }
        res
    }

    /// `w` is the key of some node other than the root before node `i`.
    closed spec fn key_below(&self, w: Seq<char>, i: int) -> bool {
        exists|j: int| 0 < j < i && self.keys@[j] == w
    }

    proof fn lemma_listing_step(&self, r0: Seq<(Vec<char>, Vec<Vec<char>>)>, r1: Seq<(Vec<char>, Vec<Vec<char>>)>, i: int)
        requires
            self.wf(),
            0 < i < self.keys@.len(),
            self.ends@[i],
            r1.len() == r0.len() + 1,
            forall|k: int| 0 <= k < r0.len() ==> #[trigger] r1[k] == r0[k],
            r1[r0.len() as int].0@ == self.keys@[i],
            path_set(r1[r0.len() as int].1@) == path_set(self.paths@[i]@),
            distinct_paths(r1[r0.len() as int].1@),
            forall|k: int| 0 <= k < r0.len() ==> self.key_below(#[trigger] r0[k].0@, i),
            forall|k: int|
                0 <= k < r0.len() ==> (exists|d: Seq<char>| self@.contains(((#[trigger] r0[k]).0@, d)))
                    && path_set(r0[k].1@) == docs_under(self@, r0[k].0@) && distinct_paths(r0[k].1@),
            forall|j: int| 0 < j < i && #[trigger] self.ends@[j] ==> exists|k: int| 0 <= k < r0.len() && (#[trigger] r0[k]).0@ == self.keys@[j],
            forall|a: int, b: int| 0 <= a < b < r0.len() ==> (#[trigger] r0[a]).0@ != (#[trigger] r0[b]).0@,
        ensures
            forall|k: int| 0 <= k < r1.len() ==> self.key_below(#[trigger] r1[k].0@, i + 1),
            forall|k: int|
                0 <= k < r1.len() ==> (exists|d: Seq<char>| self@.contains(((#[trigger] r1[k]).0@, d)))
                    && path_set(r1[k].1@) == docs_under(self@, r1[k].0@) && distinct_paths(r1[k].1@),
            forall|j: int| 0 < j < i + 1 && #[trigger] self.ends@[j] ==> exists|k: int| 0 <= k < r1.len() && (#[trigger] r1[k]).0@ == self.keys@[j],
            forall|a: int, b: int| 0 <= a < b < r1.len() ==> (#[trigger] r1[a]).0@ != (#[trigger] r1[b]).0@,
    {
        let last = r0.len() as int;
        assert forall|k: int| 0 <= k < r1.len() implies self.key_below(#[trigger] r1[k].0@, i + 1) by {
            if k < last {
                assert(r1[k] == r0[k]);
                let j = choose|j: int| 0 < j < i && self.keys@[j] == r0[k].0@;
            } else {
                assert(self.keys@[i] == r1[k].0@);
            }
        }
        assert forall|k: int| 0 <= k < r1.len() implies (exists|d: Seq<char>| self@.contains(((#[trigger] r1[k]).0@, d)))
            && path_set(r1[k].1@) == docs_under(self@, r1[k].0@) && distinct_paths(r1[k].1@) by {
            if k < last {
                assert(r1[k] == r0[k]);
            }
        }
        assert forall|j: int| 0 < j < i + 1 && #[trigger] self.ends@[j] implies exists|k: int| 0 <= k < r1.len() && (#[trigger] r1[k]).0@ == self.keys@[j] by {
            if j < i {
                let k = choose|k: int| 0 <= k < r0.len() && (#[trigger] r0[k]).0@ == self.keys@[j];
                assert(r1[k] == r0[k]);
            } else {
                assert(r1[last].0@ == self.keys@[j]);
            }
        }
        assert forall|a: int, b: int| 0 <= a < b < r1.len() implies (#[trigger] r1[a]).0@ != (#[trigger] r1[b]).0@ by {
            assert(r1[a] == r0[a]);
            if b == last {
                assert(self.key_below(r0[a].0@, i));
                let j = choose|j: int| 0 < j < i && self.keys@[j] == r0[a].0@;
                assert(self.index_of@[self.keys@[j]] == j);
                assert(self.index_of@[self.keys@[i]] == i);
            } else {
                assert(r1[b] == r0[b]);
            }
        }
    }

    fn copy_paths(&self, node: usize) -> (r: Vec<Vec<char>>)
        requires
            node < self.paths@.len(),
        ensures
            path_set(r@) == path_set(self.paths@[node as int]@),
            distinct_paths(self.paths@[node as int]@) ==> distinct_paths(r@),
    {
        let src = &self.paths[node];
        let mut r: Vec<Vec<char>> = Vec::new();
        let mut k: usize = 0;
        while k < src.len()
            invariant
                src@ == self.paths@[node as int]@,
                k <= src@.len(),
                r@.len() == k,
                forall|m: int| 0 <= m < k ==> (#[trigger] r@[m])@ == src@[m]@,
            decreases src@.len() - k,
        {
            r.push(copy_chars(src[k].as_slice()));
            k += 1;
        }
        proof {
            assert forall|d: Seq<char>| path_set(r@).contains(d) == path_set(src@).contains(d) by {
                if path_set(r@).contains(d) {
                    let m = choose|m: int| 0 <= m < r@.len() && (#[trigger] r@[m])@ == d;
                    assert(src@[m]@ == d);
                }
                if path_set(src@).contains(d) {
                    let m = choose|m: int| 0 <= m < src@.len() && (#[trigger] src@[m])@ == d;
                    assert(r@[m]@ == d);
                }
            }
            assert(path_set(r@) =~= path_set(src@));
            if distinct_paths(src@) {
                assert forall|a: int, b: int| 0 <= a < b < r@.len() implies (#[trigger] r@[a])@ != (#[trigger] r@[b])@ by {
                    assert(r@[a]@ == src@[a]@ && r@[b]@ == src@[b]@);
                }
            }
        }
        r
    }

    /// The set of documents holding some word that starts with `word`: `None`
    /// where no inserted word starts with it. The empty prefix gives the root's
    /// set, which stays empty.
    pub fn paths_for_prefix(&self, word: &[char]) -> (r: Option<&Vec<Vec<char>>>)
        requires
            self.wf(),
        ensures
            word@.len() == 0 ==> r is Some && r->0@.len() == 0,
            word@.len() > 0 ==> (r is Some <==> is_word_prefix(self@, word@)),
            word@.len() > 0 && r is Some ==> path_set(r->0@) == docs_under(self@, word@)
                && distinct_paths(r->0@),
    {
        let mut cur: usize = 0;
        let mut k: usize = 0;
        while k < word.len()
            invariant
                self.wf(),
                k <= word@.len(),
                cur < self.keys@.len(),
                self.keys@[cur as int] == word@.take(k as int),
                k > 0 ==> cur > 0,
                k == 0 ==> cur == 0,
            decreases word@.len() - k,
        {
            match self.child(cur, word[k]) {
                Some(t) => {
                    proof {
                        assert(word@.take(k as int).push(word@[k as int]) == word@.take(k + 1));
                    }
                    cur = t;
                    k += 1;
                },
                None => {
                    proof {
                        let p = word@.take(k + 1);
                        assert(word@.take(k as int).push(word@[k as int]) == p);
                        if is_word_prefix(self@, word@) {
                            let (w, d) = choose|w: Seq<char>, d: Seq<char>|
                                #[trigger] self@.contains((w, d)) && prefix_of(word@, w);
                            assert(w.take(p.len() as int) == p);
                            assert(prefix_of(p, w));
                            assert(is_word_prefix(self@, p));
                        }
                    }
                    return None;
                },
            }
        }
        proof {
            assert(word@.take(k as int) == word@);
            if word@.len() > 0 {
                let i = cur as int;
                assert(path_set(self.paths@[i]@) == docs_under(self@, word@));
                assert(is_word_prefix(self@, self.keys@[i]));
            }
        }
        Some(&self.paths[cur])
    }
}

} // verus!
