//! Introspected database metadata: the tree of relations grouped into
//! schemas under one database, together with the pure parts of the
//! introspection walk (interpreting the database comment as a schema-name
//! list, and assembling per-schema query results in input order).

use vstd::prelude::*;

verus! {

/// One queryable table or view discovered by introspection.
#[derive(Clone, Debug)]
pub struct Relation {
    pub name: String,
}

/// A named namespace of the database, owning the relations discovered in it.
#[derive(Clone, Debug)]
pub struct Schema {
    pub name: String,
    pub relations: Vec<Relation>,
}

/// The root of the introspected tree: the database and its schemas, in
/// discovery order.
#[derive(Clone, Debug)]
pub struct Database {
    pub name: String,
    pub schemas: Vec<Schema>,
}

/// Thin wrapper owning one [`Database`]; the walker's stable entry point.
#[derive(Clone, Debug)]
pub struct Introspection {
    pub database: Database,
}

/// The catalog query that lists the relations of one schema; its single
/// parameter is the schema name.
pub fn relations_query() -> (q: String)
    ensures
        q@ == "select table_name as name from information_schema.tables where table_schema = $1::text"@,
{
    "select table_name as name from information_schema.tables where table_schema = $1::text".to_owned()
}

/// The query that names the current database.
pub fn database_name_query() -> (q: String)
    ensures
        q@ == "select current_database()"@,
{
    "select current_database()".to_owned()
}

/// The query that reads the database-level shared comment; its single
/// parameter is the database name.
pub fn schema_comment_query() -> (q: String)
    ensures
        q@ == "select description from pg_shdescription join pg_database on objoid = pg_database.oid where datname = $1"@,
{
    "select description from pg_shdescription join pg_database on objoid = pg_database.oid where datname = $1".to_owned()
}

/// The views of a list of strings, in order.
pub open spec fn views_of(names: Seq<String>) -> Seq<Seq<char>> {
    names.map_values(|t: String| t@)
}

/// The pieces of `s` between commas, in order. Mirrors splitting on the
/// separator `','`: an input without commas is one piece, and every comma
/// separates two (possibly empty) pieces.
pub open spec fn split_on_commas(s: Seq<char>) -> Seq<Seq<char>>
    decreases s.len(),
{
    if s.len() == 0 {
        seq![s]
    } else if s[0] == ',' {
        seq![Seq::<char>::empty()] + split_on_commas(s.drop_first())
    } else {
        let rest = split_on_commas(s.drop_first());
        seq![seq![s[0]] + rest[0]] + rest.drop_first()
    }
}

proof fn lemma_split_len(s: Seq<char>)
    ensures
        split_on_commas(s).len() >= 1,
    decreases s.len(),
{
    if s.len() != 0 {
        lemma_split_len(s.drop_first());
    }
}

/// A sequence without commas splits into the single piece it is.
proof fn lemma_split_no_comma(s: Seq<char>)
    requires
        forall|j: int| 0 <= j < s.len() ==> s[j] != ',',
    ensures
        split_on_commas(s) =~= seq![s],
    decreases s.len(),
{
    if s.len() == 0 {
        assert(s =~= Seq::<char>::empty());
    } else {
        lemma_split_no_comma(s.drop_first());
        assert(seq![s[0]] + s.drop_first() =~= s);
    }
}

/// Splitting at the first comma: the part before it is one piece, and the
/// rest of the pieces are the split of the part after it.
proof fn lemma_split_at_first_comma(s: Seq<char>, i: int)
    requires
        0 <= i < s.len(),
        s[i] == ',',
        forall|j: int| 0 <= j < i ==> s[j] != ',',
    ensures
        split_on_commas(s) =~= seq![s.subrange(0, i)] + split_on_commas(
            s.subrange(i + 1, s.len() as int),
        ),
    decreases i,
{
    if i == 0 {
        assert(s.subrange(0, 0) =~= Seq::<char>::empty());
        assert(s.subrange(1, s.len() as int) =~= s.drop_first());
    } else {
        let d = s.drop_first();
        lemma_split_at_first_comma(d, i - 1);
        lemma_split_len(d.subrange(i, d.len() as int));
        assert(seq![s[0]] + d.subrange(0, i - 1) =~= s.subrange(0, i));
        assert(d.subrange(i, d.len() as int) =~= s.subrange(i + 1, s.len() as int));
    }
}

/// Splits `s` at every comma, preserving order; `n` empty pieces come from
/// `n + 1` consecutive commas.
fn split_commas(s: &str) -> (r: Vec<String>)
    ensures
        views_of(r@) == split_on_commas(s@),
{
    let len = s.unicode_len();
    let mut out: Vec<String> = Vec::new();
    let mut start: usize = 0;
    let mut i: usize = 0;
    proof {
        assert(s@.subrange(0, len as int) =~= s@);
        assert(views_of(out@) + split_on_commas(s@) =~= split_on_commas(s@));
    }
    while i < len
        invariant
            len == s@.len(),
            0 <= start <= i <= len,
            forall|j: int| start <= j < i ==> s@[j] != ',',
            split_on_commas(s@) =~= views_of(out@) + split_on_commas(
                s@.subrange(start as int, len as int),
            ),
        decreases len - i,
    {
        if s.get_char(i) == ',' {
            let piece = s.substring_char(start, i).to_owned();
            proof {
                let tail = s@.subrange(start as int, len as int);
                let after = s@.subrange(i as int + 1, len as int);
                lemma_split_at_first_comma(tail, i - start);
                assert(tail.subrange(0, i - start) =~= s@.subrange(start as int, i as int));
                assert(tail.subrange(i - start + 1, tail.len() as int) =~= after);
                assert(views_of(out@.push(piece)) =~= views_of(out@).push(piece@));
                assert(views_of(out@) + split_on_commas(tail) =~= views_of(out@.push(piece))
                    + split_on_commas(after));
            }
            out.push(piece);
            start = i + 1;
        }
        i = i + 1;
    }
    let last = s.substring_char(start, len).to_owned();
    proof {
        lemma_split_no_comma(s@.subrange(start as int, len as int));
        assert(views_of(out@.push(last)) =~= views_of(out@).push(last@));
        assert(views_of(out@) + split_on_commas(s@.subrange(start as int, len as int))
            =~= views_of(out@.push(last)));
    }
    out.push(last);
    out
}

/// Every schema's relations, concatenated: schema order preserved, relation
/// order within a schema preserved.
pub open spec fn flat_relations(schemas: Seq<Schema>) -> Seq<Relation>
    decreases schemas.len(),
{
    if schemas.len() == 0 {
        Seq::empty()
    } else {
        flat_relations(schemas.drop_last()) + schemas.last().relations@
    }
}

impl Schema {
    /// Builds the schema discovered under `name` from the relation names the
    /// catalog query returned, preserving their order.
    pub fn from(name: String, relation_names: Vec<String>) -> (s: Schema)
        ensures
            s.name == name,
            s.relations@.len() == relation_names@.len(),
            forall|i: int|
                0 <= i < relation_names@.len() ==> (#[trigger] s.relations@[i]).name
                    == relation_names@[i],
    {
        let n = relation_names.len();
        let mut relations: Vec<Relation> = Vec::new();
        let mut i: usize = 0;
        while i < n
            invariant
                n == relation_names@.len(),
                i <= n,
                relations@.len() == i,
                forall|j: int|
                    0 <= j < i ==> (#[trigger] relations@[j]).name == relation_names@[j],
            decreases n - i,
        {
            relations.push(Relation { name: relation_names[i].clone() });
            i = i + 1;
        }
        Schema { name, relations }
    }
}

/// Concurrently gathered per-schema results: each relation list carries the
/// position of its schema's name in the discovered name order as a tag. The
/// tags must pair every position with exactly one result.
pub open spec fn valid_results(n: nat, results: Seq<(usize, Vec<Relation>)>) -> bool {
    &&& results.len() == n
    &&& forall|j: int| 0 <= j < results.len() ==> (#[trigger] results[j]).0 < n
    &&& forall|j1: int, j2: int| 0 <= j1 < j2 < results.len() ==> results[j1].0 != results[j2].0
}

/// How an assembled database relates to the discovery inputs: the schema
/// order follows the input name order, and each tagged relation list stands
/// at its tag's position — wherever in `results` it arrived.
pub open spec fn assembled_from(
    db: Database,
    name: String,
    names: Seq<String>,
    results: Seq<(usize, Vec<Relation>)>,
) -> bool {
    &&& db.name == name
    &&& db.schemas@.len() == names.len()
    &&& forall|i: int| 0 <= i < names.len() ==> (#[trigger] db.schemas@[i]).name == names[i]
    &&& forall|j: int|
        0 <= j < results.len() ==> (#[trigger] results[j]).1 == db.schemas@[results[j].0 as int].relations
}

/// Tags that are distinct and in range cover every position.
proof fn lemma_tags_cover(results: Seq<(usize, Vec<Relation>)>, n: nat, i: int)
    requires
        valid_results(n, results),
        0 <= i < n,
    ensures
        exists|j: int| 0 <= j < results.len() && (#[trigger] results[j]).0 == i,
{
    let tags = results.map_values(|p: (usize, Vec<Relation>)| p.0 as int);
    assert(forall|j: int| 0 <= j < tags.len() ==> tags[j] == (#[trigger] results[j]).0 as int);
    assert(tags.no_duplicates());
    tags.unique_seq_to_set();
    vstd::set_lib::lemma_int_range(0, n as int);
    if !tags.to_set().contains(i) {
        assert(tags.to_set().subset_of(vstd::set_lib::set_int_range(0, n as int)));
        tags.to_set().lemma_subset_not_in_lt(vstd::set_lib::set_int_range(0, n as int), i);
        assert(false);
    }
    let j = choose|j: int| 0 <= j < tags.len() && tags[j] == i;
    assert(results[j].0 == i);
}

/// The assembled tree — and with it the flattened relation order — depends
/// only on which relation list is tagged for which schema position, never on
/// the order in which the concurrent per-schema queries completed.
pub proof fn lemma_assembly_order_independent(
    db1: Database,
    db2: Database,
    name: String,
    names: Seq<String>,
    results1: Seq<(usize, Vec<Relation>)>,
    results2: Seq<(usize, Vec<Relation>)>,
)
    requires
        valid_results(names.len(), results1),
        valid_results(names.len(), results2),
        results1.to_multiset() == results2.to_multiset(),
        assembled_from(db1, name, names, results1),
        assembled_from(db2, name, names, results2),
    ensures
        db1.schemas@ == db2.schemas@,
        flat_relations(db1.schemas@) == flat_relations(db2.schemas@),
{
    broadcast use vstd::seq_lib::group_to_multiset_ensures;

    assert forall|i: int| 0 <= i < names.len() implies db1.schemas@[i] == db2.schemas@[i] by {
        lemma_tags_cover(results1, names.len(), i);
        let j = choose|j: int| 0 <= j < results1.len() && (#[trigger] results1[j]).0 == i;
        assert(results1.contains(results1[j]));
        assert(results2.to_multiset().count(results1[j]) > 0);
        assert(results2.contains(results1[j]));
        let k = choose|k: int| 0 <= k < results2.len() && results2[k] == results1[j];
        assert(db2.schemas@[(results2[k].0) as int].relations == results2[k].1);
        assert(db1.schemas@[i].relations == db2.schemas@[i].relations);
    };
    assert(db1.schemas@ =~= db2.schemas@);
}

impl Database {
    /// Assembles the database from its discovered name, the schema names in
    /// discovery order, and the tagged per-schema results, which may arrive
    /// in any completion order. Returns `None` exactly when the tags do not
    /// pair every schema position with one result.
    #[verifier::loop_isolation(false)]
    pub fn from(
        name: String,
        schema_names: Vec<String>,
        results: Vec<(usize, Vec<Relation>)>,
    ) -> (r: Option<Database>)
        ensures
            r is Some <==> valid_results(schema_names@.len(), results@),
            r matches Some(db) ==> assembled_from(db, name, schema_names@, results@),
    {
        let ghost names0 = schema_names@;
        let ghost full = results@;
        let n = schema_names.len();
        if results.len() != n {
            return None;
        }
        let mut remaining = results;
        let mut slots: Vec<Option<Vec<Relation>>> = Vec::new();
        let mut i: usize = 0;
        while i < n
            invariant
                i <= n,
                slots@.len() == i,
                forall|t: int| 0 <= t < i ==> (#[trigger] slots@[t]) is None,
            decreases n - i,
        {
            slots.push(None);
            i = i + 1;
        }
        proof {
            assert(remaining@ =~= full.take(full.len() as int));
        }
        while remaining.len() != 0
            invariant
                n == names0.len(),
                full.len() == n,
                slots@.len() == n,
                remaining@.len() <= full.len(),
                remaining@ =~= full.take(remaining@.len() as int),
                forall|j: int| remaining@.len() <= j < full.len() ==> (#[trigger] full[j]).0 < n,
                forall|j: int|
                    remaining@.len() <= j < full.len() ==> slots@[(#[trigger] full[j]).0 as int]
                        == Some(full[j].1),
                forall|j1: int, j2: int|
                    remaining@.len() <= j1 < j2 < full.len() ==> full[j1].0 != full[j2].0,
                forall|t: int|
                    0 <= t < n && (#[trigger] slots@[t]) is Some ==> exists|j: int|
                        remaining@.len() <= j < full.len() && (#[trigger] full[j]).0 == t,
            decreases remaining@.len(),
        {
            let ghost k = remaining@.len();
            let pair = match remaining.pop() {
                Some(p) => p,
                None => {
                    proof {
                        assert(false);
                    }
                    return None;
                },
            };
            proof {
                assert(pair == full[k - 1]);
                assert(remaining@ =~= full.take(k - 1));
            }
            let idx = pair.0;
            if idx >= n {
                proof {
                    if valid_results(names0.len(), full) {
                        assert(full[k - 1].0 < n);
                        assert(false);
                    }
                    assert(!valid_results(schema_names@.len(), full));
                }
                return None;
            }
            if slots[idx].is_some() {
                proof {
                    let j = choose|j: int| k <= j < full.len() && (#[trigger] full[j]).0 == idx as int;
                    assert(full[k - 1].0 == full[j].0);
                    if valid_results(names0.len(), full) {
                        assert(full[k - 1].0 != full[j].0);
                        assert(false);
                    }
                    assert(!valid_results(schema_names@.len(), full));
                }
                return None;
            }
            slots.set(idx, Some(pair.1));
            proof {
                assert forall|t: int|
                    0 <= t < n && (#[trigger] slots@[t]) is Some implies exists|j: int|
                        k - 1 <= j < full.len() && (#[trigger] full[j]).0 == t by {
                    if t == idx as int {
                        assert(full[k - 1].0 == t);
                    }
                };
            }
        }
        proof {
            assert(valid_results(names0.len(), full));
            assert forall|t: int| 0 <= t < n implies (#[trigger] slots@[t]) is Some by {
                lemma_tags_cover(full, n as nat, t);
                let j = choose|j: int| 0 <= j < full.len() && (#[trigger] full[j]).0 == t;
                assert(slots@[t] == Some(full[j].1));
            };
        }
        let ghost fullslots = slots@;
        let mut names = schema_names;
        let mut schemas: Vec<Schema> = Vec::new();
        let mut i: usize = 0;
        while i < n
            invariant
                i <= n,
                n == names0.len(),
                fullslots.len() == n,
                names@ =~= names0.skip(i as int),
                slots@ =~= fullslots.skip(i as int),
                schemas@.len() == i,
                forall|t: int| 0 <= t < n ==> (#[trigger] fullslots[t]) is Some,
                forall|t: int| 0 <= t < i ==> (#[trigger] schemas@[t]).name == names0[t],
                forall|t: int|
                    0 <= t < i ==> Some((#[trigger] schemas@[t]).relations) == fullslots[t],
            decreases n - i,
        {
            let slot = slots.remove(0);
            let rels = match slot {
                Some(r) => r,
                None => {
                    proof {
                        assert(false);
                    }
                    return None;
                },
            };
            let nm = names.remove(0);
            proof {
                assert(fullslots.skip(i as int).remove(0) =~= fullslots.skip(i as int + 1));
                assert(names0.skip(i as int).remove(0) =~= names0.skip(i as int + 1));
                assert(nm == names0[i as int]);
                assert(Some(rels) == fullslots[i as int]);
            }
            schemas.push(Schema { name: nm, relations: rels });
            i = i + 1;
        }
        let db = Database { name, schemas };
        proof {
            assert forall|j: int|
                0 <= j < full.len() implies (#[trigger] full[j]).1
                == db.schemas@[full[j].0 as int].relations by {
                assert(Some(db.schemas@[full[j].0 as int].relations) == fullslots[full[j].0 as int]);
                assert(fullslots[full[j].0 as int] == Some(full[j].1));
            };
        }
        Some(db)
    }

    /// The flattened view of the tree: the concatenation of every schema's
    /// relations, in schema order.
    pub fn relations(self: &Self) -> (r: Vec<Relation>)
        ensures
            r@ == flat_relations(self.schemas@),
    {
        let mut r: Vec<Relation> = Vec::new();
        let mut i: usize = 0;
        let n = self.schemas.len();
        while i < n
            invariant
                n == self.schemas@.len(),
                i <= n,
                r@ =~= flat_relations(self.schemas@.take(i as int)),
            decreases n - i,
        {
            let m = self.schemas[i].relations.len();
            let mut j: usize = 0;
            while j < m
                invariant
                    i < n,
                    n == self.schemas@.len(),
                    m == self.schemas@[i as int].relations@.len(),
                    j <= m,
                    r@ =~= flat_relations(self.schemas@.take(i as int))
                        + self.schemas@[i as int].relations@.take(j as int),
                decreases m - j,
            {
                r.push(Relation { name: self.schemas[i].relations[j].name.clone() });
                proof {
                    assert(self.schemas@[i as int].relations@.take(j as int + 1)
                        =~= self.schemas@[i as int].relations@.take(j as int).push(
                        self.schemas@[i as int].relations@[j as int],
                    ));
                }
                j = j + 1;
            }
            proof {
                let t = self.schemas@.take(i as int + 1);
                assert(t.drop_last() =~= self.schemas@.take(i as int));
                assert(t.last() == self.schemas@[i as int]);
                assert(self.schemas@[i as int].relations@.take(m as int)
                    =~= self.schemas@[i as int].relations@);
            }
            i = i + 1;
        }
        proof {
            assert(self.schemas@.take(n as int) =~= self.schemas@);
        }
        r
    }

    /// Interprets the database-level comment as the ordered list of schema
    /// names to introspect: a comma-separated list when the comment exists,
    /// and exactly `["public"]` when it does not.
    pub fn schema_names(comment: Option<String>) -> (names: Vec<String>)
        ensures
            comment matches Some(c) ==> views_of(names@) == split_on_commas(c@),
            comment is None ==> (names@.len() == 1 && names@[0]@ == "public"@),
    {
        match comment {
            Some(c) => split_commas(c.as_str()),
            None => {
                let mut names: Vec<String> = Vec::new();
                names.push("public".to_owned());
                proof {
                    assert(views_of(names@) =~= seq!["public"@]);
                }
                names
            },
        }
    }
}

impl Introspection {
    /// Wraps a fully assembled database tree.
    pub fn from(database: Database) -> (r: Introspection)
        ensures
            r.database == database,
    {
        Introspection { database }
    }

    /// The flattened relation list of the wrapped database.
    pub fn relations(self: &Self) -> (r: Vec<Relation>)
        ensures
            r@ == flat_relations(self.database.schemas@),
    {
        self.database.relations()
    }
}

} // verus!
