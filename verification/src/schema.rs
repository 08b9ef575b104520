//! The field registry built from one introspection pass, and the dynamic
//! query type that publishes it and routes field requests through it.

pub mod introspection;

use itertools::Itertools;
use vstd::prelude::*;

verus! {

use crate::schema::introspection::Introspection;
use crate::schema::introspection::Relation;
use crate::schema::introspection::flat_relations;
use crate::schema::introspection::views_of;
use vstd::hash_map::StringHashMap;

/// The scalar kinds a published field can declare.
#[derive(Clone, Copy, Debug, PartialEq, Eq, Structural)]
pub enum ScalarKind {
    Integer,
}

/// The resolver a descriptor runs when its field is requested, one variant
/// per resolver body. Every introspected relation currently gets the
/// placeholder resolver, which answers with a constant integer query.
#[derive(Clone, Copy, Debug, PartialEq, Eq, Structural)]
pub enum Resolver {
    PlaceholderInt,
}

/// A value produced by a resolver.
#[derive(Clone, Copy, Debug, PartialEq, Eq, Structural)]
pub enum ScalarValue {
    Int(i32),
}

/// A request-time field failure, returned to the caller for that field
/// alone; the process and sibling fields are unaffected.
#[derive(Clone, Debug)]
pub struct FieldError {
    pub message: String,
}

impl Resolver {
    /// The SQL text this resolver executes once a connection is acquired.
    pub fn query_text(&self) -> (q: String)
        ensures
            q@ == "select 2"@,
    {
        match self {
            Resolver::PlaceholderInt => "select 2".to_owned(),
        }
    }
}

/// One published field: its name, its declared scalar kind, and the
/// resolver that answers requests for it.
#[derive(Clone, Debug)]
pub struct FieldDescriptor {
    pub name: String,
    pub declared: ScalarKind,
    pub resolver: Resolver,
}

/// The descriptor built for one discovered relation: the field carries the
/// relation's name and the placeholder integer resolver.
pub open spec fn descriptor_for(relation: Relation) -> FieldDescriptor {
    FieldDescriptor {
        name: relation.name,
        declared: ScalarKind::Integer,
        resolver: Resolver::PlaceholderInt,
    }
}

/// The descriptors for a relation list, in order.
pub open spec fn descriptors_of(relations: Seq<Relation>) -> Seq<FieldDescriptor> {
    relations.map_values(|r: Relation| descriptor_for(r))
}

/// The names of a descriptor list, in order.
pub open spec fn names_of(fields: Seq<FieldDescriptor>) -> Seq<Seq<char>> {
    fields.map_values(|d: FieldDescriptor| d.name@)
}

/// The registry a descriptor list builds: each descriptor inserted under
/// its name, in order, so a later descriptor overwrites an earlier one of
/// the same name.
pub open spec fn registry_of(fields: Seq<FieldDescriptor>) -> Map<Seq<char>, FieldDescriptor>
    decreases fields.len(),
{
    if fields.len() == 0 {
        Map::empty()
    } else {
        registry_of(fields.drop_last()).insert(fields.last().name@, fields.last())
    }
}

/// Appending one element to a sequence inserts it into the set of the
/// sequence's elements.
proof fn lemma_push_to_set(s: Seq<Seq<char>>, x: Seq<char>)
    ensures
        s.push(x).to_set() =~= s.to_set().insert(x),
{
    assert forall|y: Seq<char>| s.push(x).to_set().contains(y) implies s.to_set().insert(
        x,
    ).contains(y) by {
        let i = choose|i: int| 0 <= i < s.push(x).len() && s.push(x)[i] == y;
        if i < s.len() {
            assert(s[i] == y);
        }
    };
    assert forall|y: Seq<char>| s.to_set().insert(x).contains(y) implies s.push(
        x,
    ).to_set().contains(y) by {
        if y == x {
            assert(s.push(x)[s.len() as int] == y);
        } else {
            let i = choose|i: int| 0 <= i < s.len() && s[i] == y;
            assert(s.push(x)[i] == y);
        }
    };
}

/// The registry's keys are exactly the distinct names of its descriptor
/// list: every name is published, and none but them.
pub proof fn lemma_registry_dom(fields: Seq<FieldDescriptor>)
    ensures
        registry_of(fields).dom() =~= names_of(fields).to_set(),
    decreases fields.len(),
{
    if fields.len() == 0 {
        assert(names_of(fields).to_set() =~= Set::empty());
    } else {
        lemma_registry_dom(fields.drop_last());
        let nf = names_of(fields);
        let nd = names_of(fields.drop_last());
        assert(nd =~= nf.drop_last());
        assert forall|k: Seq<char>| nf.to_set().contains(k) implies registry_of(
            fields,
        ).dom().contains(k) by {
            let i = choose|i: int| 0 <= i < nf.len() && nf[i] == k;
            if i < fields.len() - 1 {
                assert(nd[i] == k);
                assert(nd.to_set().contains(k));
            }
        };
        assert forall|k: Seq<char>| registry_of(fields).dom().contains(k) implies nf.to_set().contains(
            k,
        ) by {
            if k == fields.last().name@ {
                assert(nf[fields.len() - 1] == k);
            } else {
                let i = choose|i: int| 0 <= i < nd.len() && nd[i] == k;
                assert(nf[i] == k);
            }
        };
    }
}

/// The registry built for a relation list — however many duplicates the
/// list holds, and in whatever order — publishes exactly the distinct
/// relation names.
pub proof fn lemma_registry_names_are_relation_names(relations: Seq<Relation>)
    ensures
        registry_of(descriptors_of(relations)).dom() =~= relations.map_values(
            |r: Relation| r.name@,
        ).to_set(),
{
    lemma_registry_dom(descriptors_of(relations));
    assert(names_of(descriptors_of(relations)) =~= relations.map_values(|r: Relation| r.name@));
}

/// Last write wins: when several descriptors share a name, the registry
/// holds the one standing last in the list.
pub proof fn lemma_registry_last_write_wins(fields: Seq<FieldDescriptor>, i: int)
    requires
        0 <= i < fields.len(),
        forall|j: int| i < j < fields.len() ==> (#[trigger] fields[j]).name@ != fields[i].name@,
    ensures
        registry_of(fields).contains_key(fields[i].name@),
        registry_of(fields)[fields[i].name@] == fields[i],
    decreases fields.len(),
{
    if i < fields.len() - 1 {
        assert(fields.drop_last()[i] == fields[i]);
        assert(forall|j: int|
            i < j < fields.drop_last().len() ==> (#[trigger] fields.drop_last()[j]).name@
                != fields.drop_last()[i].name@);
        lemma_registry_last_write_wins(fields.drop_last(), i);
    }
}

/// The field registry: the published type name and the name-keyed
/// descriptor table, built once from one introspection pass and immutable
/// afterward. Its view is the name-to-descriptor map.
pub struct TypeInfo {
    name: String,
    fields: StringHashMap<FieldDescriptor>,
    keys: Vec<String>,
}

impl View for TypeInfo {
    type V = Map<Seq<char>, FieldDescriptor>;

    closed spec fn view(&self) -> Map<Seq<char>, FieldDescriptor> {
        self.fields@
    }
}

impl TypeInfo {
    /// The published type name.
    pub closed spec fn spec_name(self) -> String {
        self.name
    }

    /// Well-formedness: the key list names each registered field exactly
    /// once, and nothing else.
    pub closed spec fn wf(self) -> bool {
        &&& views_of(self.keys@).no_duplicates()
        &&& views_of(self.keys@).to_set() == self.fields@.dom()
    }

    /// Builds the registry from a descriptor list: each descriptor is
    /// registered under its name, a later duplicate overwriting an earlier
    /// one.
    #[verifier::loop_isolation(false)]
    pub fn new(name: String, fields: Vec<FieldDescriptor>) -> (t: TypeInfo)
        ensures
            t.wf(),
            t.spec_name() == name,
            t@ == registry_of(fields@),
    {
        let n = fields.len();
        let mut rest = fields;
        let mut table: StringHashMap<FieldDescriptor> = StringHashMap::new();
        let mut keys: Vec<String> = Vec::new();
        let mut i: usize = 0;
        proof {
            assert(rest@ =~= fields@.skip(0));
            assert(registry_of(fields@.take(0)) =~= Map::<Seq<char>, FieldDescriptor>::empty());
        }
        while i < n
            invariant
                i <= n,
                n == fields@.len(),
                rest@ =~= fields@.skip(i as int),
                table@ == registry_of(fields@.take(i as int)),
                views_of(keys@).no_duplicates(),
                views_of(keys@).to_set() == table@.dom(),
            decreases n - i,
        {
            let d = rest.remove(0);
            proof {
                assert(fields@.skip(i as int).remove(0) =~= fields@.skip(i as int + 1));
                assert(d == fields@[i as int]);
            }
            if !table.contains_key(d.name.as_str()) {
                proof {
                    assert(views_of(keys@.push(d.name)) =~= views_of(keys@).push(d.name@));
                    assert(!views_of(keys@).contains(d.name@));
                    assert(views_of(keys@).push(d.name@).no_duplicates());
                    lemma_push_to_set(views_of(keys@), d.name@);
                }
                keys.push(d.name.clone());
            } else {
                proof {
                    assert(table@.dom().insert(d.name@) =~= table@.dom());
                }
            }
            let ghost prior = table@;
            table.insert(d.name.clone(), d);
            proof {
                let t = fields@.take(i as int + 1);
                assert(t.drop_last() =~= fields@.take(i as int));
                assert(t.last() == fields@[i as int]);
                assert(table@ == registry_of(t));
                assert(table@.dom() =~= prior.dom().insert(d.name@));
            }
            i = i + 1;
        }
        proof {
            assert(fields@.take(n as int) =~= fields@);
        }
        TypeInfo { name, fields: table, keys }
    }

    /// Looks the descriptor registered for a name up, by exact match.
    pub fn lookup(&self, name: &str) -> (r: Option<&FieldDescriptor>)
        ensures
            match r {
                Some(d) => self@.contains_key(name@) && *d == self@[name@],
                None => !self@.contains_key(name@),
            },
    {
        self.fields.get(name)
    }

    /// The published field list: every registered field name exactly once,
    /// in ascending lexicographic order, each with its declared scalar kind.
    #[verifier::loop_isolation(false)]
    pub fn publish(&self) -> (r: Vec<(String, ScalarKind)>)
        requires
            self.wf(),
        ensures
            forall|i: int, j: int|
                0 <= i < j < r@.len() ==> lex_le((#[trigger] r@[i]).0@, (#[trigger] r@[j]).0@)
                    && r@[i].0@ != r@[j].0@,
            forall|i: int|
                0 <= i < r@.len() ==> self@.contains_key((#[trigger] r@[i]).0@) && r@[i].1
                    == self@[r@[i].0@].declared,
            forall|k: Seq<char>|
                self@.contains_key(k) ==> exists|i: int|
                    0 <= i < r@.len() && (#[trigger] r@[i]).0@ == k,
    {
        let sorted = sorted_names(&self.keys);
        proof {
            lemma_sorted_keys(views_of(self.keys@), views_of(sorted@));
        }
        let n = sorted.len();
        let mut out: Vec<(String, ScalarKind)> = Vec::new();
        let mut i: usize = 0;
        while i < n
            invariant
                i <= n,
                n == sorted@.len(),
                out@.len() == i,
                forall|t: int| 0 <= t < i ==> (#[trigger] out@[t]).0 == sorted@[t],
                forall|t: int|
                    0 <= t < i ==> (#[trigger] out@[t]).1 == self@[sorted@[t]@].declared,
            decreases n - i,
        {
            proof {
                assert(views_of(sorted@)[i as int] == sorted@[i as int]@);
                assert(views_of(sorted@).to_set().contains(sorted@[i as int]@));
            }
            let d = match self.fields.get(sorted[i].as_str()) {
                Some(d) => d,
                None => {
                    proof {
                        assert(false);
                    }
                    return Vec::new();
                },
            };
            out.push((sorted[i].clone(), d.declared));
            i = i + 1;
        }
        proof {
            assert forall|i: int, j: int| 0 <= i < j < out@.len() implies lex_le(
                (#[trigger] out@[i]).0@,
                (#[trigger] out@[j]).0@,
            ) && out@[i].0@ != out@[j].0@ by {
                assert(views_of(sorted@)[i] == sorted@[i]@);
                assert(views_of(sorted@)[j] == sorted@[j]@);
            };
            assert forall|i: int| 0 <= i < out@.len() implies self@.contains_key(
                (#[trigger] out@[i]).0@,
            ) && out@[i].1 == self@[out@[i].0@].declared by {
                assert(views_of(sorted@)[i] == sorted@[i]@);
                assert(views_of(sorted@).to_set().contains(sorted@[i]@));
            };
            assert forall|k: Seq<char>| self@.contains_key(k) implies exists|i: int|
                0 <= i < out@.len() && (#[trigger] out@[i]).0@ == k by {
                assert(views_of(sorted@).to_set().contains(k));
                let i = choose|i: int|
                    0 <= i < views_of(sorted@).len() && views_of(sorted@)[i] == k;
                assert(out@[i].0@ == k);
            };
        }
        out
    }
}

/// Ascending lexicographic order on names, by character code: the order in
/// which `String`s compare.
pub open spec fn lex_le(a: Seq<char>, b: Seq<char>) -> bool
    decreases a.len(),
{
    if a.len() == 0 {
        true
    } else if b.len() == 0 {
        false
    } else if a[0] == b[0] {
        lex_le(a.drop_first(), b.drop_first())
    } else {
        (a[0] as u32) < (b[0] as u32)
    }
}

/// Relies on itertools' `sorted` over `String`s: the result holds the same
/// strings, reordered into ascending lexicographic order.
#[verifier::external_body]
fn sorted_names(names: &Vec<String>) -> (r: Vec<String>)
    ensures
        views_of(r@).to_multiset() == views_of(names@).to_multiset(),
        forall|i: int, j: int| 0 <= i < j < r@.len() ==> lex_le(r@[i]@, r@[j]@),
{
    names.iter().cloned().sorted().collect()
}

/// Reordering a duplicate-free name list keeps it duplicate-free, with the
/// same set of names.
proof fn lemma_sorted_keys(a: Seq<Seq<char>>, b: Seq<Seq<char>>)
    requires
        a.to_multiset() == b.to_multiset(),
        a.no_duplicates(),
    ensures
        b.no_duplicates(),
        b.to_set() =~= a.to_set(),
{
    broadcast use vstd::seq_lib::group_to_multiset_ensures;

    a.lemma_multiset_has_no_duplicates();
    b.lemma_multiset_has_no_duplicates_conv();
    assert forall|x: Seq<char>| b.to_set().contains(x) implies a.to_set().contains(x) by {
        assert(b.to_multiset().count(x) > 0);
    };
    assert forall|x: Seq<char>| a.to_set().contains(x) implies b.to_set().contains(x) by {
        assert(a.to_multiset().count(x) > 0);
    };
}

impl FieldDescriptor {
    /// The descriptor built for one discovered relation.
    pub fn from_relation(relation: &Relation) -> (d: FieldDescriptor)
        ensures
            d == descriptor_for(*relation),
    {
        FieldDescriptor {
            name: relation.name.clone(),
            declared: ScalarKind::Integer,
            resolver: Resolver::PlaceholderInt,
        }
    }

    /// The pair the schema publishes for this field: its name and declared
    /// scalar kind.
    pub fn register(&self) -> (r: (String, ScalarKind))
        ensures
            r.0 == self.name,
            r.1 == self.declared,
    {
        (self.name.clone(), self.declared)
    }

    /// The field's answer once its resolver's query outcome is known: the
    /// scalar on success, and the failure as a field-level error value for
    /// this field alone.
    pub fn resolve(&self, outcome: Result<i32, String>) -> (r: Result<ScalarValue, FieldError>)
        ensures
            outcome matches Ok(v) ==> r == Ok::<ScalarValue, FieldError>(ScalarValue::Int(v)),
            outcome matches Err(m) ==> (r matches Err(e) && e.message == m),
    {
        match self.resolver {
            Resolver::PlaceholderInt => match outcome {
                Ok(v) => Ok(ScalarValue::Int(v)),
                Err(m) => Err(FieldError { message: m }),
            },
        }
    }
}

/// Where a field request is routed: to the descriptor registered for the
/// name, or — when the requested name and the registry disagree — to the
/// internal-fault signal, never to a normal value or a user-facing error.
#[derive(Debug)]
pub enum Dispatch<'a> {
    Field(&'a FieldDescriptor),
    InternalFault,
}

/// The dynamic query type: a stateless value that delegates everything to
/// the registry it is handed.
#[derive(Debug, Default)]
pub struct Query {}

impl Query {
    /// The registry's published type name.
    pub fn name<'a>(info: &'a TypeInfo) -> (r: &'a String)
        ensures
            *r == info.spec_name(),
    {
        &info.name
    }

    /// The type's published field list, as the registry publishes it:
    /// sorted by name, each registered name exactly once.
    pub fn meta(info: &TypeInfo) -> (r: Vec<(String, ScalarKind)>)
        requires
            info.wf(),
        ensures
            forall|i: int, j: int|
                0 <= i < j < r@.len() ==> lex_le((#[trigger] r@[i]).0@, (#[trigger] r@[j]).0@)
                    && r@[i].0@ != r@[j].0@,
            forall|i: int|
                0 <= i < r@.len() ==> info@.contains_key((#[trigger] r@[i]).0@) && r@[i].1
                    == info@[r@[i].0@].declared,
            forall|k: Seq<char>|
                info@.contains_key(k) ==> exists|i: int|
                    0 <= i < r@.len() && (#[trigger] r@[i]).0@ == k,
    {
        info.publish()
    }

    /// Routes one field request: the registered descriptor when the name is
    /// known, and the internal-fault signal — an unrecoverable condition,
    /// not a user error — when it is not.
    pub fn dispatch<'a>(info: &'a TypeInfo, field_name: &str) -> (r: Dispatch<'a>)
        ensures
            info@.contains_key(field_name@) ==> (r matches Dispatch::Field(d) && *d
                == info@[field_name@]),
            !info@.contains_key(field_name@) ==> r is InternalFault,
    {
        match info.lookup(field_name) {
            Some(d) => Dispatch::Field(d),
            None => Dispatch::InternalFault,
        }
    }
}

/// Builds the field registry of the published type "Query" from one
/// introspection pass: one field per discovered relation, registered in
/// flattening order, so of relations sharing a name across schemas the
/// later one wins.
#[verifier::loop_isolation(false)]
pub fn build(introspection: &Introspection) -> (t: TypeInfo)
    ensures
        t.wf(),
        t.spec_name()@ == "Query"@,
        t@ == registry_of(descriptors_of(flat_relations(introspection.database.schemas@))),
{
    let relations = introspection.relations();
    let n = relations.len();
    let mut fields: Vec<FieldDescriptor> = Vec::new();
    let mut i: usize = 0;
    while i < n
        invariant
            i <= n,
            n == relations@.len(),
            fields@ =~= descriptors_of(relations@.take(i as int)),
        decreases n - i,
    {
        fields.push(FieldDescriptor::from_relation(&relations[i]));
        proof {
            assert(descriptors_of(relations@.take(i as int + 1)) =~= descriptors_of(
                relations@.take(i as int),
            ).push(descriptor_for(relations@[i as int])));
        }
        i = i + 1;
    }
    proof {
        assert(relations@.take(n as int) =~= relations@);
    }
    TypeInfo::new("Query".to_owned(), fields)
}

} // verus!
