//! Building the bisection graph from a linear commit log: one record per
//! commit, its identifier first, then the identifiers of its declared
//! parents. Declared parents that are not themselves vertices are
//! dropped, and the reverse (child) relation is derived, so that the
//! finished graph is closed and symmetric.

use vstd::prelude::*;
use crate::lines::{record_seq, split_all, split_records, split_spec};
use crate::oid::{contains_oid, decode_hex, parse_err_spec, valid_hex, Oid, OidParseError};

verus! {

broadcast use vstd::seq_lib::group_seq_properties;

/// One step of shrinking a prefix: what a prefix holds besides its last
/// element stands in the prefix one shorter.
pub(crate) proof fn lemma_take_step<A>(s: Seq<A>, t: int, q: A)
    requires
        0 <= t < s.len(),
        s.take(t + 1).contains(q),
        q != s[t],
    ensures
        s.take(t).contains(q),
{
    let ix = choose|ix: int| 0 <= ix < s.take(t + 1).len() && #[trigger] s.take(t + 1)[ix] == q;
    assert(s.take(t)[ix] == q);
}

/// A graph vertex: the effective parents and the recorded children,
/// each a duplicate-free list of vertex identifiers.
#[derive(Debug, PartialEq)]
pub struct Commit {
    pub parents: Vec<Oid>,
    pub children: Vec<Oid>,
}

/// The bisection graph: vertices keyed by identifier, and the bad tip,
/// which is the identifier of the first record of the source log.
#[derive(Debug, PartialEq)]
pub struct CommitGraph {
    pub bad: Option<Oid>,
    pub commits: Vec<(Oid, Commit)>,
}

impl CommitGraph {
    /// The vertex keys, in the order the graph holds them.
    pub open spec fn key_seq(self) -> Seq<Seq<u8>> {
        self.commits@.map_values(|p: (Oid, Commit)| p.0@)
    }

    /// The set of vertices.
    pub open spec fn key_set(self) -> Set<Seq<u8>> {
        self.key_seq().to_set()
    }

    /// Whether an identifier names a vertex.
    pub open spec fn contains_key(self, k: Seq<u8>) -> bool {
        self.key_seq().contains(k)
    }

    /// The vertex stored under an identifier.
    pub open spec fn commit_of(self, k: Seq<u8>) -> Commit {
        self.commits@[self.key_seq().index_of(k)].1
    }

    /// The parents of a vertex, as a set of identifiers.
    pub open spec fn parents_of(self, k: Seq<u8>) -> Set<Seq<u8>> {
        self.commit_of(k).parents.deep_view().to_set()
    }

    /// The children of a vertex, as a set of identifiers.
    pub open spec fn children_of(self, k: Seq<u8>) -> Set<Seq<u8>> {
        self.commit_of(k).children.deep_view().to_set()
    }

    /// Well-formedness: keys are distinct, each vertex's parent and
    /// child lists are duplicate-free and name vertices of the graph
    /// only, and the parent/child relation is symmetric.
    pub open spec fn wf(self) -> bool {
        &&& self.key_seq().no_duplicates()
        &&& (forall|i: int|
            0 <= i < self.commits@.len() ==> (#[trigger] self.commits@[i].1.parents).deep_view().no_duplicates())
        &&& (forall|i: int|
            0 <= i < self.commits@.len() ==> (#[trigger] self.commits@[i].1.children).deep_view().no_duplicates())
        &&& (forall|k: Seq<u8>, p: Seq<u8>|
            self.contains_key(k) && #[trigger] self.parents_of(k).contains(p) ==> self.contains_key(p))
        &&& (forall|k: Seq<u8>, c: Seq<u8>|
            self.contains_key(k) && #[trigger] self.children_of(k).contains(c) ==> self.contains_key(c))
        &&& (forall|p: Seq<u8>, c: Seq<u8>|
            self.contains_key(p) && self.contains_key(c) ==> (#[trigger] self.children_of(p).contains(c)
                <==> #[trigger] self.parents_of(c).contains(p)))
    }

    /// A distinct key's position: looking up the key seen at a position
    /// finds that position again.
    pub proof fn lemma_key_index(self, t: int)
        requires
            self.key_seq().no_duplicates(),
            0 <= t < self.commits@.len(),
        ensures
            self.key_seq().index_of(self.key_seq()[t]) == t,
    {
        let ks = self.key_seq();
        let k = ks[t];
        assert(ks.contains(k));
        let i = ks.index_of(k);
        assert(0 <= i < ks.len() && ks[i] == k);
    }

    /// Look up a vertex by identifier.
    pub fn get(&self, oid: &Oid) -> (r: Option<&Commit>)
        requires
            self.key_seq().no_duplicates(),
        ensures
            r is Some <==> self.contains_key(oid@),
            r matches Some(c) ==> *c == self.commit_of(oid@),
    {
        let n = self.commits.len();
        let mut i: usize = 0;
        while i < n
            invariant
                i <= n,
                n == self.commits@.len(),
                self.key_seq().no_duplicates(),
                forall|j: int| 0 <= j < i ==> self.key_seq()[j] != oid@,
            decreases n - i,
        {
            if &self.commits[i].0 == oid {
                proof {
                    assert(self.key_seq()[i as int] == oid@);
                    self.lemma_key_index(i as int);
                }
                return Some(&self.commits[i].1);
            }
            i += 1;
        }
        proof {
            assert(forall|j: int| 0 <= j < n ==> self.key_seq()[j] != oid@);
        }
        None
    }
}

/// The fields of a log record: its text split at single spaces.
pub open spec fn fields(l: Seq<u8>) -> Seq<Seq<u8>> {
    split_spec(l, 32)
}

/// A log record is well formed when it is nonempty and every field is
/// valid hex text.
pub open spec fn rec_ok(l: Seq<u8>) -> bool {
    l.len() > 0 && forall|i: int| 0 <= i < fields(l).len() ==> valid_hex(#[trigger] fields(l)[i])
}

/// The identifier a record defines: its first field.
pub open spec fn rec_key(l: Seq<u8>) -> Seq<u8> {
    decode_hex(fields(l)[0])
}

/// The parents a record declares: its remaining fields.
pub open spec fn rec_parents(l: Seq<u8>) -> Seq<Seq<u8>> {
    fields(l).drop_first().map_values(|f: Seq<u8>| decode_hex(f))
}

/// The declared-parent table of a log: identifiers to declared parents,
/// a later record for the same identifier replacing an earlier one.
pub open spec fn dag_of(recs: Seq<Seq<u8>>) -> Map<Seq<u8>, Seq<Seq<u8>>>
    decreases recs.len(),
{
    if recs.len() == 0 {
        Map::empty()
    } else {
        dag_of(recs.drop_last()).insert(rec_key(recs.last()), rec_parents(recs.last()))
    }
}

/// The vertex identifiers in the order the log first defines them.
pub open spec fn key_order(recs: Seq<Seq<u8>>) -> Seq<Seq<u8>>
    decreases recs.len(),
{
    if recs.len() == 0 {
        seq![]
    } else {
        let prefix = key_order(recs.drop_last());
        if prefix.contains(rec_key(recs.last())) {
            prefix
        } else {
            prefix.push(rec_key(recs.last()))
        }
    }
}

/// The effective parents of a vertex: its declared parents that are
/// vertices, in declaration order, first occurrence kept.
pub open spec fn parents_order(decl: Seq<Seq<u8>>, dom: Set<Seq<u8>>) -> Seq<Seq<u8>>
    decreases decl.len(),
{
    if decl.len() == 0 {
        seq![]
    } else {
        let prefix = parents_order(decl.drop_last(), dom);
        let p = decl.last();
        if dom.contains(p) && !prefix.contains(p) {
            prefix.push(p)
        } else {
            prefix
        }
    }
}

/// The children of a vertex: the vertices that declare it a parent, in
/// vertex order.
pub open spec fn children_order(keys: Seq<Seq<u8>>, dag: Map<Seq<u8>, Seq<Seq<u8>>>, k: Seq<u8>) -> Seq<
    Seq<u8>,
> {
    keys.filter(|c: Seq<u8>| dag.dom().contains(c) && dag[c].to_set().contains(k))
}

/// Why the log failed to parse: the first offending record.
#[derive(Debug)]
pub enum GraphError {
    /// The record at this index is empty.
    EmptyLine { record: usize },
    /// A field of the record at this index is not valid hex text.
    BadField { record: usize, cause: OidParseError },
}

/// What `commit_graph` reports of a malformed log: the first record that
/// is empty, or else the first whose fields do not all parse, with the
/// cause from its first bad field.
pub open spec fn graph_err_spec(recs: Seq<Seq<u8>>, e: GraphError) -> bool {
    match e {
        GraphError::EmptyLine { record } => {
            &&& 0 <= record < recs.len()
            &&& recs[record as int].len() == 0
            &&& (forall|j: int| 0 <= j < record ==> rec_ok(#[trigger] recs[j]))
        },
        GraphError::BadField { record, cause } => {
            let fs = fields(recs[record as int]);
            &&& 0 <= record < recs.len()
            &&& recs[record as int].len() > 0
            &&& (forall|j: int| 0 <= j < record ==> rec_ok(#[trigger] recs[j]))
            &&& exists|fi: int|
                {
                    &&& 0 <= fi < fs.len()
                    &&& !valid_hex(#[trigger] fs[fi])
                    &&& (forall|j: int| 0 <= j < fi ==> valid_hex(#[trigger] fs[j]))
                    &&& parse_err_spec(fs[fi], cause)
                }
        },
    }
}

/// Keys of a parsed-entry table, in order.
pub open spec fn entry_keys(es: Seq<(Oid, Vec<Oid>)>) -> Seq<Seq<u8>> {
    es.map_values(|e: (Oid, Vec<Oid>)| e.0@)
}

/// The table a parsed-entry list denotes.
pub open spec fn entries_map(es: Seq<(Oid, Vec<Oid>)>) -> Map<Seq<u8>, Seq<Seq<u8>>>
    decreases es.len(),
{
    if es.len() == 0 {
        Map::empty()
    } else {
        entries_map(es.drop_last()).insert(es.last().0@, es.last().1.deep_view())
    }
}

/// The table's domain is the set of entry keys.
proof fn lemma_entries_dom(es: Seq<(Oid, Vec<Oid>)>)
    ensures
        entries_map(es).dom() =~= entry_keys(es).to_set(),
    decreases es.len(),
{
    if es.len() > 0 {
        lemma_entries_dom(es.drop_last());
        assert(entry_keys(es.drop_last()) =~= entry_keys(es).drop_last());
        assert forall|k: Seq<u8>| entry_keys(es).to_set().contains(k) implies entries_map(
            es,
        ).dom().contains(k) by {
            let i = choose|i: int| 0 <= i < entry_keys(es).len() && entry_keys(es)[i] == k;
            if i < es.len() - 1 {
                assert(entry_keys(es).drop_last()[i] == k);
                assert(entry_keys(es.drop_last()).contains(k));
            }
        }
        assert forall|k: Seq<u8>| entries_map(es).dom().contains(k) implies entry_keys(
            es,
        ).to_set().contains(k) by {
            if k != es.last().0@ {
                assert(entry_keys(es.drop_last()).contains(k));
                let i = choose|i: int|
                    0 <= i < entry_keys(es.drop_last()).len() && entry_keys(es.drop_last())[i] == k;
                assert(entry_keys(es)[i] == k);
            } else {
                assert(entry_keys(es)[es.len() - 1] == k);
            }
        }
    }
}

/// With distinct keys, the table maps each entry's key to its parents.
proof fn lemma_entries_lookup(es: Seq<(Oid, Vec<Oid>)>, i: int)
    requires
        entry_keys(es).no_duplicates(),
        0 <= i < es.len(),
    ensures
        entries_map(es).dom().contains(es[i].0@),
        entries_map(es)[es[i].0@] == es[i].1.deep_view(),
    decreases es.len(),
{
    lemma_entries_dom(es);
    assert(entry_keys(es)[i] == es[i].0@);
    if i == es.len() - 1 {
    } else {
        assert(entry_keys(es.drop_last()) =~= entry_keys(es).drop_last());
        lemma_entries_lookup(es.drop_last(), i);
        assert(entry_keys(es)[es.len() - 1] == es.last().0@);
        assert(es[i].0@ != es.last().0@);
    }
}

/// With distinct keys, replacing the entry at a position replaces that
/// key's parents in the table.
proof fn lemma_entries_update(es: Seq<(Oid, Vec<Oid>)>, i: int, e: (Oid, Vec<Oid>))
    requires
        entry_keys(es).no_duplicates(),
        0 <= i < es.len(),
        e.0@ == es[i].0@,
    ensures
        entries_map(es.update(i, e)) =~= entries_map(es).insert(e.0@, e.1.deep_view()),
    decreases es.len(),
{
    if i == es.len() - 1 {
        assert(es.update(i, e).drop_last() =~= es.drop_last());
        assert(es.update(i, e).last() == e);
    } else {
        assert(es.update(i, e).drop_last() =~= es.drop_last().update(i, e));
        assert(es.update(i, e).last() == es.last());
        assert(entry_keys(es.drop_last()) =~= entry_keys(es).drop_last());
        lemma_entries_update(es.drop_last(), i, e);
        assert(entry_keys(es)[i] == es[i].0@);
        assert(entry_keys(es)[es.len() - 1] == es.last().0@);
        assert(e.0@ != es.last().0@);
    }
}

/// Position of an identifier among the entry keys, when it is there.
fn find_entry(es: &Vec<(Oid, Vec<Oid>)>, o: &Oid) -> (r: Option<usize>)
    ensures
        r is None <==> !entry_keys(es@).contains(o@),
        r matches Some(i) ==> 0 <= i < es@.len() && es@[i as int].0@ == o@,
{
    let n = es.len();
    let mut i: usize = 0;
    while i < n
        invariant
            i <= n,
            n == es@.len(),
            forall|j: int| 0 <= j < i ==> entry_keys(es@)[j] != o@,
        decreases n - i,
    {
        if &es[i].0 == o {
            proof {
                assert(entry_keys(es@)[i as int] == o@);
            }
            return Some(i);
        }
        proof {
            assert(entry_keys(es@)[i as int] == es@[i as int].0@);
        }
        i += 1;
    }
    proof {
        assert(forall|j: int| 0 <= j < n ==> entry_keys(es@)[j] != o@);
    }
    None
}

/// Build the bisection graph from log text: one record per vertex, the
/// vertex identifier first and its declared parents after, all in hex.
/// The first record's identifier becomes the bad tip. Declared parents
/// that are no vertex are dropped; the child relation is the exact
/// reverse of the kept parent relation. Fails on the first empty record
/// or unparsable field, naming the record and the offending chunk.
pub fn commit_graph(input: &[u8]) -> (r: Result<CommitGraph, GraphError>)
    ensures
        ({
            let recs = record_seq(input@, 10);
            let dag = dag_of(recs);
            match r {
                Ok(g) => {
                    &&& (forall|i: int| 0 <= i < recs.len() ==> rec_ok(#[trigger] recs[i]))
                    &&& g.wf()
                    &&& g.key_seq() == key_order(recs)
                    &&& g.key_set() == dag.dom()
                    &&& (g.bad is None <==> recs.len() == 0)
                    &&& (g.bad matches Some(b) ==> b@ == rec_key(recs[0]))
                    &&& (forall|k: Seq<u8>| #[trigger] dag.dom().contains(k) ==> g.commit_of(
                        k,
                    ).parents.deep_view() == parents_order(dag[k], dag.dom()))
                    &&& (forall|k: Seq<u8>| #[trigger] dag.dom().contains(k) ==> g.commit_of(
                        k,
                    ).children.deep_view() == children_order(key_order(recs), dag, k))
                    &&& (forall|k: Seq<u8>| #[trigger] dag.dom().contains(k) ==> g.parents_of(k)
                        == dag[k].to_set().intersect(dag.dom()))
                    &&& (forall|k: Seq<u8>| #[trigger] dag.dom().contains(k) ==> g.children_of(k)
                        == Set::new(
                        |c: Seq<u8>| dag.dom().contains(c) && dag[c].to_set().contains(k),
                    ))
                },
                Err(e) => graph_err_spec(recs, e),
            }
        }),
{
    let records = split_records(input, 10);
    let ghost recs = record_seq(input@, 10);
    let n = records.len();
    let mut entries: Vec<(Oid, Vec<Oid>)> = Vec::new();
    let mut li: usize = 0;
    while li < n
        invariant
            li <= n,
            n == records@.len(),
            records.deep_view() == recs,
            recs == record_seq(input@, 10),
            forall|j: int| 0 <= j < li ==> rec_ok(#[trigger] recs[j]),
            entry_keys(entries@).no_duplicates(),
            entry_keys(entries@) == key_order(recs.take(li as int)),
            entries_map(entries@) =~= dag_of(recs.take(li as int)),
            entries@.len() == 0 <==> li == 0,
            li > 0 ==> entries@.len() > 0 && entries@[0].0@ == rec_key(recs[0]),
        decreases n - li,
    {
        let record = &records[li];
        let ghost rv = recs[li as int];
        proof {
            assert(records.deep_view()[li as int] == records@[li as int]@);
        }
        if record.len() == 0 {
            return Err(GraphError::EmptyLine { record: li });
        }
        let fs = split_all(record.as_slice(), 32);
        let ghost fsv = fields(rv);
        proof {
            assert(fs.deep_view() == fsv);
        }
        let m = fs.len();
        let mut parsed: Vec<Oid> = Vec::new();
        let mut fi: usize = 0;
        while fi < m
            invariant
                fi <= m,
                m == fs@.len(),
                fs.deep_view() == fsv,
                0 <= li < recs.len(),
                rv == recs[li as int],
                recs == record_seq(input@, 10),
                fsv == fields(rv),
                rv.len() > 0,
                forall|j: int| 0 <= j < li ==> rec_ok(#[trigger] recs[j]),
                forall|j: int| 0 <= j < fi ==> valid_hex(#[trigger] fsv[j]),
                parsed.deep_view() =~= fsv.take(fi as int).map_values(
                    |f: Seq<u8>| decode_hex(f),
                ),
            decreases m - fi,
        {
            let ghost pre = parsed.deep_view();
            match Oid::parse(fs[fi].as_slice()) {
                Ok(o) => {
                    proof {
                        assert(fs.deep_view()[fi as int] == fs@[fi as int]@);
                    }
                    let ghost ov = o@;
                    parsed.push(o);
                    proof {
                        let f = |f: Seq<u8>| decode_hex(f);
                        assert(parsed.deep_view() =~~= pre.push(ov));
                        assert(fsv.take(fi + 1) =~= fsv.take(fi as int).push(fsv[fi as int]));
                        assert(fsv.take(fi + 1).map_values(f) =~= fsv.take(fi as int).map_values(
                            f,
                        ).push(f(fsv[fi as int])));
                    }
                },
                Err(cause) => {
                    proof {
                        assert(fs.deep_view()[fi as int] == fs@[fi as int]@);
                        assert(!valid_hex(fsv[fi as int]));
                    }
                    return Err(GraphError::BadField { record: li, cause });
                },
            }
            fi += 1;
        }
        proof {
            assert(fsv.take(m as int) =~= fsv);
            crate::lines::lemma_split_spec_len(rv, 32);
            assert(rec_ok(rv));
        }
        // First field is the record's identifier, the rest its parents.
        let mut parents = parsed;
        let ghost pdv = parents.deep_view();
        let ghost pvec = parents@;
        let key = parents.remove(0);
        proof {
            let f = |f: Seq<u8>| decode_hex(f);
            assert(pdv == fsv.map_values(f));
            assert(key == pvec[0]);
            assert(key@ == pdv[0]);
            assert(pdv[0] == f(fsv[0]));
            assert(key@ == rec_key(rv));
            assert(parents.deep_view() =~~= pdv.drop_first());
            assert(pdv.drop_first() =~= fsv.drop_first().map_values(f));
            assert(parents.deep_view() == rec_parents(rv));
        }
        let ghost pre_entries = entries@;
        let ghost kv = key@;
        let ghost pv = parents.deep_view();
        match find_entry(&entries, &key) {
            Some(idx) => {
                let _ = entries.remove(idx);
                entries.insert(idx, (key, parents));
                proof {
                    assert(entries@ =~= pre_entries.update(idx as int, entries@[idx as int]));
                    assert(entries@[idx as int].0@ == kv);
                    assert(entries@[idx as int].1.deep_view() == pv);
                    lemma_entries_update(
                        pre_entries,
                        idx as int,
                        entries@[idx as int],
                    );
                    assert(entry_keys(entries@) =~= entry_keys(pre_entries));
                }
            },
            None => {
                entries.push((key, parents));
                proof {
                    assert(entries@.drop_last() =~= pre_entries);
                    assert(entry_keys(entries@) =~= entry_keys(pre_entries).push(kv));
                    assert(entry_keys(entries@).no_duplicates());
                }
            },
        }
        proof {
            assert(recs.take(li + 1).drop_last() =~= recs.take(li as int));
            assert(recs.take(li + 1).last() == rv);
            assert(entries_map(entries@) =~= dag_of(recs.take(li + 1)));
        }
        li += 1;
    }
    proof {
        assert(recs.take(n as int) =~= recs);
    }
    let ghost dag = dag_of(recs);
    proof {
        lemma_entries_dom(entries@);
    }

    let bad: Option<Oid> = if entries.len() > 0 {
        Some(entries[0].0.clone())
    } else {
        None
    };

    let en = entries.len();
    let mut commits: Vec<(Oid, Commit)> = Vec::new();
    let mut i: usize = 0;
    while i < en
        invariant
            i <= en,
            en == entries@.len(),
            entry_keys(entries@).no_duplicates(),
            entries_map(entries@) =~= dag,
            dag.dom() =~= entry_keys(entries@).to_set(),
            commits@.len() == i,
            forall|t: int| 0 <= t < i ==> (#[trigger] commits@[t]).0@ == entry_keys(entries@)[t],
            forall|t: int|
                0 <= t < i ==> (#[trigger] commits@[t]).1.parents.deep_view().no_duplicates(),
            forall|t: int|
                0 <= t < i ==> (#[trigger] commits@[t]).1.children.deep_view().no_duplicates(),
            forall|t: int|
                0 <= t < i ==> (#[trigger] commits@[t]).1.parents.deep_view() == parents_order(
                    dag[entry_keys(entries@)[t]],
                    dag.dom(),
                ),
            forall|t: int|
                0 <= t < i ==> (#[trigger] commits@[t]).1.children.deep_view() == children_order(
                    entry_keys(entries@),
                    dag,
                    entry_keys(entries@)[t],
                ),
            forall|t: int|
                0 <= t < i ==> (#[trigger] commits@[t]).1.parents.deep_view().to_set()
                    =~= dag[entry_keys(entries@)[t]].to_set().intersect(dag.dom()),
            forall|t: int|
                0 <= t < i ==> (#[trigger] commits@[t]).1.children.deep_view().to_set()
                    =~= Set::new(
                    |c: Seq<u8>| dag.dom().contains(c) && dag[c].to_set().contains(
                        entry_keys(entries@)[t],
                    ),
                ),
        decreases en - i,
    {
        let key_i = entries[i].0.clone();
        proof {
            assert(entry_keys(entries@)[i as int] == key_i@);
            lemma_entries_lookup(entries@, i as int);
        }
        let ghost kv = key_i@;
        let ghost decl = entries@[i as int].1.deep_view();

        // Effective parents: declared parents that are vertices, without
        // duplicates, in declaration order.
        let dn = entries[i].1.len();
        let mut parents: Vec<Oid> = Vec::new();
        let mut t: usize = 0;
        while t < dn
            invariant
                t <= dn,
                0 <= i < entries@.len(),
                dn == entries@[i as int].1@.len(),
                decl == entries@[i as int].1.deep_view(),
                entry_keys(entries@).no_duplicates(),
                entries_map(entries@) =~= dag,
                dag.dom() =~= entry_keys(entries@).to_set(),
                parents.deep_view().no_duplicates(),
                parents.deep_view() == parents_order(decl.take(t as int), dag.dom()),
                forall|q: Seq<u8>|
                    #[trigger] parents.deep_view().contains(q) <==> (decl.take(t as int).contains(
                        q,
                    ) && dag.dom().contains(q)),
            decreases dn - t,
        {
            let p = &entries[i].1[t];
            proof {
                assert(decl[t as int] == entries@[i as int].1@[t as int]@);
                assert(decl.take(t + 1) =~= decl.take(t as int).push(decl[t as int]));
                assert(decl.take(t + 1).drop_last() =~= decl.take(t as int));
                assert(decl.take(t + 1).last() == decl[t as int]);
            }
            let is_vertex = find_entry(&entries, p).is_some();
            if is_vertex && !contains_oid(&parents, p) {
                let ghost prepar = parents.deep_view();
                parents.push(p.clone());
                proof {
                    assert(parents.deep_view() =~~= prepar.push(decl[t as int]));
                    assert(dag.dom().contains(decl[t as int]));
                    assert(parents.deep_view() == parents_order(decl.take(t + 1), dag.dom()));
                    assert forall|q: Seq<u8>| #[trigger] parents.deep_view().contains(q) implies (
                    decl.take(t + 1).contains(q) && dag.dom().contains(q)) by {
                        if q != decl[t as int] {
                            assert(prepar.contains(q));
                        }
                    }
                    assert forall|q: Seq<u8>|
                        decl.take(t + 1).contains(q) && dag.dom().contains(
                            q,
                        ) implies #[trigger] parents.deep_view().contains(q) by {
                        if q != decl[t as int] {
                            assert(decl.take(t as int).contains(q));
                            assert(prepar.contains(q));
                            assert(parents.deep_view()[prepar.index_of(q)] == q);
                        } else {
                            assert(parents.deep_view().last() == q);
                        }
                    }
                }
            } else {
                proof {
                    assert(!(dag.dom().contains(decl[t as int]) && !parents.deep_view().contains(
                        decl[t as int],
                    ))) by {
                        if dag.dom().contains(decl[t as int]) {
                            assert(entry_keys(entries@).to_set().contains(decl[t as int]));
                        }
                    }
                    assert(parents.deep_view() == parents_order(decl.take(t + 1), dag.dom()));
                    assert forall|q: Seq<u8>|
                        decl.take(t + 1).contains(q) && dag.dom().contains(
                            q,
                        ) implies #[trigger] parents.deep_view().contains(q) by {
                        if q == decl[t as int] {
                            assert(entry_keys(entries@).to_set().contains(q));
                        } else {
                            lemma_take_step(decl, t as int, q);
                        }
                    }
                    assert forall|q: Seq<u8>| #[trigger] parents.deep_view().contains(q) implies (
                    decl.take(t + 1).contains(q) && dag.dom().contains(q)) by {
                        assert(decl.take(t as int).contains(q));
                    }
                }
            }
            t += 1;
        }
        proof {
            assert(decl.take(dn as int) =~= decl);
        }

        // Children: every vertex that declares this one as a parent.
        let mut children: Vec<Oid> = Vec::new();
        let mut j: usize = 0;
        while j < en
            invariant
                j <= en,
                en == entries@.len(),
                0 <= i < entries@.len(),
                kv == entry_keys(entries@)[i as int],
                key_i@ == kv,
                entry_keys(entries@).no_duplicates(),
                entries_map(entries@) =~= dag,
                dag.dom() =~= entry_keys(entries@).to_set(),
                children.deep_view().no_duplicates(),
                children.deep_view() == children_order(
                    entry_keys(entries@).take(j as int),
                    dag,
                    kv,
                ),
                forall|c: Seq<u8>|
                    #[trigger] children.deep_view().contains(c) <==> exists|u: int|
                        0 <= u < j && entry_keys(entries@)[u] == c && entries@[u].1.deep_view().contains(kv),
            decreases en - j,
        {
            proof {
                lemma_entries_lookup(entries@, j as int);
                assert(entry_keys(entries@)[j as int] == entries@[j as int].0@);
            }
            if contains_oid(&entries[j].1, &key_i) {
                let ghost prech = children.deep_view();
                let ghost cv = entries@[j as int].0@;
                proof {
                    assert(entry_keys(entries@)[j as int] == cv);
                    assert(!prech.contains(cv)) by {
                        if prech.contains(cv) {
                            let u = choose|u: int|
                                0 <= u < j && entry_keys(entries@)[u] == cv && entries@[u].1.deep_view().contains(kv);
                            assert(entry_keys(entries@)[u] == entry_keys(entries@)[j as int]);
                            assert(false);
                        }
                    }
                }
                children.push(entries[j].0.clone());
                proof {
                    assert(children.deep_view() =~~= prech.push(cv));
                    assert forall|c: Seq<u8>| #[trigger] children.deep_view().contains(c) implies
                    exists|u: int|
                        0 <= u < j + 1 && entry_keys(entries@)[u] == c && entries@[u].1.deep_view().contains(kv) by {
                        if c == cv {
                            assert(entry_keys(entries@)[j as int] == c && entries@[j as int].1.deep_view().contains(kv));
                        } else {
                            assert(prech.contains(c));
                        }
                    }
                    assert forall|c: Seq<u8>|
                        (exists|u: int|
                            0 <= u < j + 1 && entry_keys(entries@)[u] == c && entries@[u].1.deep_view().contains(
                                kv,
                            )) implies #[trigger] children.deep_view().contains(c) by {
                        let u = choose|u: int|
                            0 <= u < j + 1 && entry_keys(entries@)[u] == c && entries@[u].1.deep_view().contains(kv);
                        if u == j {
                            assert(children.deep_view().last() == c);
                        } else {
                            assert(prech.contains(c));
                            assert(children.deep_view()[prech.index_of(c)] == c);
                        }
                    }
                }
            }
            proof {
                let ek = entry_keys(entries@);
                reveal(Seq::filter);
                assert(ek.take(j + 1).drop_last() =~= ek.take(j as int));
                assert(ek.take(j + 1).last() == ek[j as int]);
                assert(dag[ek[j as int]] == entries@[j as int].1.deep_view());
                assert(children.deep_view() == children_order(ek.take(j + 1), dag, kv));
            }
            j += 1;
        }

        commits.push((key_i, Commit { parents, children }));
        proof {
            lemma_entries_lookup(entries@, i as int);
            assert(commits@[i as int].1.parents.deep_view() == parents_order(
                dag[kv],
                dag.dom(),
            )) by {
                assert(dag[kv] == decl);
            }
            assert(commits@[i as int].1.children.deep_view() == children_order(
                entry_keys(entries@),
                dag,
                kv,
            )) by {
                assert(entry_keys(entries@).take(en as int) =~= entry_keys(entries@));
            }
            assert(commits@[i as int].1.parents.deep_view().to_set() =~= dag[entry_keys(
                entries@,
            )[i as int]].to_set().intersect(dag.dom())) by {
                assert(dag[kv] == decl);
            }
            assert(commits@[i as int].1.children.deep_view().to_set() =~= Set::new(
                |c: Seq<u8>| dag.dom().contains(c) && dag[c].to_set().contains(kv),
            )) by {
                let ch = commits@[i as int].1.children.deep_view();
                assert forall|c: Seq<u8>| ch.to_set().contains(c) implies dag.dom().contains(c)
                    && dag[c].to_set().contains(kv) by {
                    let u = choose|u: int|
                        0 <= u < en && entry_keys(entries@)[u] == c && entries@[u].1.deep_view().contains(kv);
                    lemma_entries_lookup(entries@, u);
                    assert(entry_keys(entries@).to_set().contains(c));
                }
                assert forall|c: Seq<u8>|
                    dag.dom().contains(c) && dag[c].to_set().contains(kv) implies ch.to_set().contains(
                    c,
                ) by {
                    let u = choose|u: int| 0 <= u < entry_keys(entries@).len() && entry_keys(entries@)[u] == c;
                    lemma_entries_lookup(entries@, u);
                    assert(entries@[u].1.deep_view().contains(kv));
                }
            }
        }
        i += 1;
    }

    let g = CommitGraph { bad, commits };
    proof {
        assert(g.key_seq() =~= entry_keys(entries@));
        assert(g.key_set() =~= dag.dom());
        assert(entry_keys(entries@) == key_order(recs));
        assert forall|k: Seq<u8>| #[trigger] dag.dom().contains(k) implies g.parents_of(k)
            =~= dag[k].to_set().intersect(dag.dom()) && g.children_of(k) =~= Set::new(
            |c: Seq<u8>| dag.dom().contains(c) && dag[c].to_set().contains(k),
        ) && g.commit_of(k).parents.deep_view() == parents_order(dag[k], dag.dom())
            && g.commit_of(k).children.deep_view() == children_order(key_order(recs), dag, k) by {
            let t = choose|t: int| 0 <= t < g.key_seq().len() && g.key_seq()[t] == k;
            g.lemma_key_index(t);
        }
        assert(g.wf()) by {
            assert forall|k: Seq<u8>, p: Seq<u8>|
                g.contains_key(k) && #[trigger] g.parents_of(k).contains(p) implies g.contains_key(
                p,
            ) by {
                assert(dag.dom().contains(k));
            }
            assert forall|k: Seq<u8>, c: Seq<u8>|
                g.contains_key(k) && #[trigger] g.children_of(k).contains(c) implies g.contains_key(
                c,
            ) by {
                assert(dag.dom().contains(k));
            }
            assert forall|p: Seq<u8>, c: Seq<u8>|
                g.contains_key(p) && g.contains_key(c) implies (#[trigger] g.children_of(
                p,
            ).contains(c) <==> #[trigger] g.parents_of(c).contains(p)) by {
                assert(dag.dom().contains(p) && dag.dom().contains(c));
            }
        }
    }
    Ok(g)
}

} // verus!
