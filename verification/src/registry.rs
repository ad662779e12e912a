//! The command registry: the commands the compiler can lower, the component
//! types support libraries contribute, and the module's own subroutines.

use vstd::prelude::*;
use crate::text::{push_str, str_eq, text};
use crate::types::{item_subs, Module, RecordDef, Signature, Sub, Ty};

verus! {

/// A component property, as declared in a library's component description.
#[derive(Debug, Clone, PartialEq, Eq)]
pub struct PropertyDesc {
    pub name: String,
    pub ty: Ty,
}

/// A visual component type contributed by a support library.
#[derive(Debug, Clone, PartialEq, Eq)]
pub struct ComponentDesc {
    pub name: String,
    /// Accessibility role, carried from the descriptor.
    pub a11y_role: i32,
    pub properties: Vec<PropertyDesc>,
    pub events: Vec<String>,
}

impl ComponentDesc {
    /// The first property declared under `name`.
    pub fn property(&self, name: &str) -> (r: Option<&PropertyDesc>)
        ensures
            match r {
                Some(p) => exists|i: int| 0 <= i < self.properties@.len()
                    && *p == #[trigger] self.properties@[i] && p.name@ == name@
                    && forall|j: int| 0 <= j < i ==> self.properties@[j].name@ != name@,
                None => forall|i: int| 0 <= i < self.properties@.len()
                    ==> #[trigger] self.properties@[i].name@ != name@,
            },
    {
        let mut i: usize = 0;
        while i < self.properties.len()
            invariant
                i <= self.properties@.len(),
                forall|j: int| 0 <= j < i ==> #[trigger] self.properties@[j].name@ != name@,
            decreases self.properties@.len() - i,
        {
            if str_eq(self.properties[i].name.as_str(), name) {
                return Some(&self.properties[i]);
            }
            i = i + 1;
        }
        None
    }

    /// Whether the component raises the event `name`.
    pub fn has_event(&self, name: &str) -> (r: bool)
        ensures
            r == exists|i: int| 0 <= i < self.events@.len() && #[trigger] self.events@[i]@ == name@,
    {
        let mut i: usize = 0;
        while i < self.events.len()
            invariant
                i <= self.events@.len(),
                forall|j: int| 0 <= j < i ==> #[trigger] self.events@[j]@ != name@,
            decreases self.events@.len() - i,
        {
            if str_eq(self.events[i].as_str(), name) {
                return true;
            }
            i = i + 1;
        }
        false
    }
}

/// One registered command: its signature and the runtime function a call to
/// it becomes.
#[derive(Debug, PartialEq)]
pub struct Command {
    pub sig: Signature,
    /// The runtime function symbol a call is emitted to.
    pub symbol: String,
}

/// No key occurs twice.
pub open spec fn keys_distinct<T>(s: Seq<(String, T)>) -> bool {
    forall|i: int, j: int| 0 <= i < j < s.len() ==> s[i].0@ != s[j].0@
}

/// Some entry is under `k`.
pub open spec fn has_key<T>(s: Seq<(String, T)>, k: Seq<char>) -> bool {
    exists|i: int| 0 <= i < s.len() && #[trigger] s[i].0@ == k
}

/// No component name occurs twice.
pub open spec fn names_distinct(s: Seq<ComponentDesc>) -> bool {
    forall|i: int, j: int| 0 <= i < j < s.len() ==> s[i].name@ != s[j].name@
}

/// The component type declared under `name`, if any.
pub open spec fn component_named(s: Seq<ComponentDesc>, name: Seq<char>) -> Option<ComponentDesc> {
    if exists|i: int| 0 <= i < s.len() && #[trigger] s[i].name@ == name {
        Some(s[choose|i: int| 0 <= i < s.len() && #[trigger] s[i].name@ == name])
    } else {
        None
    }
}

/// No record name occurs twice.
pub open spec fn record_names_distinct(s: Seq<RecordDef>) -> bool {
    forall|i: int, j: int| 0 <= i < j < s.len() ==> s[i].name@ != s[j].name@
}

/// Replacing or adding the record of one name leaves what every other name
/// finds unchanged, and that name then finds the new record.
proof fn lemma_record_named_after(before: Seq<RecordDef>, after: Seq<RecordDef>, def: RecordDef, k: int)
    requires
        record_names_distinct(before),
        record_names_distinct(after),
        0 <= k < after.len(),
        after[k] == def,
        forall|j: int| 0 <= j < before.len() && before[j].name@ != def.name@ ==> j < after.len() && after[j] == before[j],
        forall|j: int| 0 <= j < after.len() && after[j].name@ != def.name@ ==> j < before.len() && before[j] == after[j],
    ensures
        record_named(after, def.name@) == Some(def),
        forall|n: Seq<char>| n != def.name@ ==> #[trigger] record_named(after, n) == record_named(before, n),
{
    assert(after[k].name@ == def.name@);
    assert forall|n: Seq<char>| n != def.name@ implies #[trigger] record_named(after, n) == record_named(before, n) by {
        if exists|j: int| 0 <= j < before.len() && #[trigger] before[j].name@ == n {
            let jb = choose|j: int| 0 <= j < before.len() && #[trigger] before[j].name@ == n;
            assert(after[jb].name@ == n);
            let ja = choose|j: int| 0 <= j < after.len() && #[trigger] after[j].name@ == n;
            assert(before[ja] == after[ja]);
        } else {
            if exists|j: int| 0 <= j < after.len() && #[trigger] after[j].name@ == n {
                let ja = choose|j: int| 0 <= j < after.len() && #[trigger] after[j].name@ == n;
                assert(before[ja].name@ == n);
            }
        }
    }
}

/// The record declared under `name`, if any.
pub open spec fn record_named(s: Seq<RecordDef>, name: Seq<char>) -> Option<RecordDef> {
    if exists|i: int| 0 <= i < s.len() && #[trigger] s[i].name@ == name {
        Some(s[choose|i: int| 0 <= i < s.len() && #[trigger] s[i].name@ == name])
    } else {
        None
    }
}

/// The entry under `name`, if any.
fn find_key<T>(v: &Vec<(String, T)>, name: &str) -> (r: Option<usize>)
    ensures
        match r {
            Some(i) => i < v@.len() && v@[i as int].0@ == name@,
            None => !has_key(v@, name@),
        },
{
    let mut i: usize = 0;
    while i < v.len()
        invariant
            i <= v@.len(),
            forall|k: int| 0 <= k < i ==> #[trigger] v@[k].0@ != name@,
        decreases v@.len() - i,
    {
        if str_eq(v[i].0.as_str(), name) {
            return Some(i);
        }
        i = i + 1;
    }
    None
}

/// The set of commands the compiler knows how to lower, the component types
/// the libraries contribute, and the subroutines of the module being
/// compiled, and the record types in scope, each by name. A user subroutine
/// never takes a library command's name: `register_subs` reports the
/// collision instead.
#[derive(Debug)]
pub struct Registry {
    map: Vec<(String, Command)>,
    components: Vec<ComponentDesc>,
    subs: Vec<(String, Signature)>,
    records: Vec<RecordDef>,
}

impl Registry {
    #[verifier::type_invariant]
    spec fn names_unique(&self) -> bool {
        &&& keys_distinct(self.map@)
        &&& keys_distinct(self.subs@)
        &&& names_distinct(self.components@)
        &&& record_names_distinct(self.records@)
    }

    /// The commands, by name.
    pub closed spec fn commands(&self) -> Seq<(String, Command)> {
        self.map@
    }

    /// The component types.
    pub closed spec fn component_types(&self) -> Seq<ComponentDesc> {
        self.components@
    }

    /// The user subroutines, by name.
    pub closed spec fn sub_table(&self) -> Seq<(String, Signature)> {
        self.subs@
    }

    /// The record types, in the order they were first registered.
    pub closed spec fn record_table(&self) -> Seq<RecordDef> {
        self.records@
    }

    /// An empty registry.
    pub fn new() -> (r: Registry)
        ensures
            r.commands().len() == 0,
            r.component_types().len() == 0,
            r.sub_table().len() == 0,
            r.record_table().len() == 0,
    {
        Registry { map: Vec::new(), components: Vec::new(), subs: Vec::new(), records: Vec::new() }
    }

    /// Record every subroutine of `m` as callable, and return, in order, the
    /// names that collide with a library command: those are not recorded.
    /// A later subroutine of one name stands in for an earlier one.
    pub fn register_subs(&mut self, m: &Module) -> (r: Vec<String>)
        ensures
            final(self).commands() == old(self).commands(),
            final(self).component_types() == old(self).component_types(),
            final(self).record_table() == old(self).record_table(),
            r@.map_values(|n: String| n@) == colliding(item_subs(m.items@), old(self).commands()),
            forall|n: Seq<char>| #[trigger] has_key(final(self).sub_table(), n) <==> (has_key(old(self).sub_table(), n)
                || registrable(item_subs(m.items@), old(self).commands(), n)),
            forall|e: int| 0 <= e < final(self).sub_table().len() ==> #[trigger] registered_entry(
                final(self).sub_table()[e], old(self).sub_table(), item_subs(m.items@), old(self).commands()),
    {
        proof {
            use_type_invariant(&*self);
        }
        let subs = m.subs();
        let ghost all = item_subs(m.items@);
        let mut collisions: Vec<String> = Vec::new();
        let ghost old_subs = self.subs@;
        let mut table: Vec<(String, Signature)> = Vec::new();
        std::mem::swap(&mut table, &mut self.subs);
        let mut i: usize = 0;
        while i < subs.len()
            invariant
                subs@.len() == all.len(),
                forall|k: int| 0 <= k < subs@.len() ==> *subs@[k] == all[k],
                i <= subs@.len(),
                self.map@ == old(self).map@,
                self.components@ == old(self).components@,
                keys_distinct(self.map@),
                keys_distinct(table@),
                names_distinct(self.components@),
                old_subs == old(self).subs@,
                collisions@.map_values(|n: String| n@) == colliding(all.take(i as int), self.map@),
                forall|n: Seq<char>| #[trigger] has_key(table@, n) <==> (has_key(old_subs, n)
                    || registrable(all.take(i as int), self.map@, n)),
                forall|e: int| 0 <= e < table@.len() ==> #[trigger] registered_entry(table@[e], old_subs, all.take(i as int), self.map@),
            decreases subs@.len() - i,
        {
            let sub = subs[i];
            proof {
                assert(all.take(i + 1).drop_last() =~= all.take(i as int));
                assert(all.take(i + 1).last() == *sub);
            }
            match find_key(&self.map, sub.name.as_str()) {
                Some(_) => {
                    let ghost before = collisions@;
                    collisions.push(text(sub.name.as_str()));
                    proof {
                        assert(collisions@.map_values(|n: String| n@) =~= before.map_values(|n: String| n@).push(sub.name@));
                        assert(has_key(self.map@, sub.name@));
                        assert forall|n: Seq<char>| #[trigger] registrable(all.take(i + 1), self.map@, n)
                            <==> registrable(all.take(i as int), self.map@, n) by {
                            lemma_registrable_step(all, i as int, self.map@, n);
                        }
                        assert forall|e: int| 0 <= e < table@.len() implies #[trigger] registered_entry(table@[e], old_subs, all.take(i + 1), self.map@) by {
                            lemma_registered_step(table@[e], old_subs, all, i as int, self.map@);
                        }
                    }
                },
                None => {
                    proof {
                        assert forall|n: Seq<char>| #[trigger] registrable(all.take(i + 1), self.map@, n)
                            <==> (registrable(all.take(i as int), self.map@, n) || n == sub.name@) by {
                            lemma_registrable_step(all, i as int, self.map@, n);
                        }
                    }
                    let sig = sub.signature();
                    let ghost before = table@;
                    match find_key(&table, sub.name.as_str()) {
                        Some(j) => {
                            table.set(j, (text(sub.name.as_str()), sig));
                            proof {
                                assert forall|a: int, b: int| 0 <= a < b < table@.len() implies table@[a].0@ != table@[b].0@ by {
                                    assert(a != j as int ==> table@[a] == before[a]);
                                    assert(b != j as int ==> table@[b] == before[b]);
                                }
                                assert forall|n: Seq<char>| has_key(table@, n) <==> #[trigger] has_key(before, n) by {
                                    if has_key(before, n) {
                                        let k = choose|k: int| 0 <= k < before.len() && #[trigger] before[k].0@ == n;
                                        assert(table@[k].0@ == n);
                                    }
                                    if has_key(table@, n) {
                                        let k = choose|k: int| 0 <= k < table@.len() && #[trigger] table@[k].0@ == n;
                                        assert(before[k].0@ == n);
                                    }
                                }
                                assert(has_key(before, sub.name@));
                                assert forall|e: int| 0 <= e < table@.len() implies #[trigger] registered_entry(table@[e], old_subs, all.take(i + 1), self.map@) by {
                                    if e == j as int {
                                        lemma_registered_new(table@[e], old_subs, all, i as int, self.map@);
                                    } else {
                                        assert(table@[e] == before[e]);
                                        assert(before[e].0@ != before[j as int].0@);
                                        lemma_registered_step(table@[e], old_subs, all, i as int, self.map@);
                                    }
                                }
                                assert forall|n: Seq<char>| #[trigger] has_key(table@, n) <==> (has_key(old_subs, n)
                                    || registrable(all.take(i + 1), self.map@, n)) by {
                                    assert(has_key(table@, n) <==> has_key(before, n));
                                    assert(registrable(all.take(i + 1), self.map@, n)
                                        <==> (registrable(all.take(i as int), self.map@, n) || n == sub.name@));
                                }
                            }
                        },
                        None => {
                            table.push((text(sub.name.as_str()), sig));
                            proof {
                                assert forall|a: int, b: int| 0 <= a < b < table@.len() implies table@[a].0@ != table@[b].0@ by {
                                    if b == before.len() {
                                        assert(table@[a] == before[a]);
                                    }
                                }
                                assert forall|e: int| 0 <= e < table@.len() implies #[trigger] registered_entry(table@[e], old_subs, all.take(i + 1), self.map@) by {
                                    if e == before.len() {
                                        lemma_registered_new(table@[e], old_subs, all, i as int, self.map@);
                                    } else {
                                        assert(table@[e] == before[e]);
                                        lemma_registered_step(table@[e], old_subs, all, i as int, self.map@);
                                    }
                                }
                                assert forall|n: Seq<char>| has_key(table@, n) <==> (#[trigger] has_key(before, n) || n == sub.name@) by {
                                    if has_key(before, n) {
                                        let k = choose|k: int| 0 <= k < before.len() && #[trigger] before[k].0@ == n;
                                        assert(table@[k].0@ == n);
                                    }
                                    if n == sub.name@ {
                                        assert(table@[before.len() as int].0@ == n);
                                    }
                                    if has_key(table@, n) {
                                        let k = choose|k: int| 0 <= k < table@.len() && #[trigger] table@[k].0@ == n;
                                        if k < before.len() {
                                            assert(before[k].0@ == n);
                                        }
                                    }
                                }
                                assert forall|n: Seq<char>| #[trigger] has_key(table@, n) <==> (has_key(old_subs, n)
                                    || registrable(all.take(i + 1), self.map@, n)) by {
                                    assert(has_key(table@, n) <==> (has_key(before, n) || n == sub.name@));
                                    assert(registrable(all.take(i + 1), self.map@, n)
                                        <==> (registrable(all.take(i as int), self.map@, n) || n == sub.name@));
                                }
                            }
                        },
                    }
                },
            }
            i = i + 1;
        }
        proof {
            assert(all.take(i as int) =~= all);
        }
        self.subs = table;
        collisions
    }

    /// The signature of a user subroutine, if `name` is one.
    pub fn sub(&self, name: &str) -> (r: Option<&Signature>)
        ensures
            match r {
                Some(s) => exists|i: int| 0 <= i < self.sub_table().len() && #[trigger] self.sub_table()[i].0@ == name@
                    && *s == self.sub_table()[i].1,
                None => !has_key(self.sub_table(), name@),
            },
            keys_distinct(self.sub_table()),
    {
        proof {
            use_type_invariant(self);
        }
        match find_key(&self.subs, name) {
            Some(i) => {
                assert(self.sub_table()[i as int].0@ == name@);
                Some(&self.subs[i].1)
            },
            None => None,
        }
    }

    /// Whether `name` names a user subroutine.
    pub fn is_sub(&self, name: &str) -> (r: bool)
        ensures
            r == has_key(self.sub_table(), name@),
    {
        find_key(&self.subs, name).is_some()
    }

    /// The user subroutines' names.
    pub fn sub_names(&self) -> (r: Vec<&str>)
        ensures
            r@.len() == self.sub_table().len(),
            forall|i: int| 0 <= i < r@.len() ==> (#[trigger] r@[i])@ == self.sub_table()[i].0@,
    {
        let mut out: Vec<&str> = Vec::new();
        let mut i: usize = 0;
        while i < self.subs.len()
            invariant
                i <= self.subs@.len(),
                out@.len() == i,
                forall|k: int| 0 <= k < i ==> (#[trigger] out@[k])@ == self.subs@[k].0@,
            decreases self.subs@.len() - i,
        {
            out.push(self.subs[i].0.as_str());
            i = i + 1;
        }
        out
    }

    /// The component type of that name.
    pub fn component(&self, name: &str) -> (r: Option<&ComponentDesc>)
        ensures
            match r {
                Some(c) => exists|i: int| 0 <= i < self.component_types().len()
                    && *c == #[trigger] self.component_types()[i] && c.name@ == name@,
                None => forall|i: int| 0 <= i < self.component_types().len()
                    ==> #[trigger] self.component_types()[i].name@ != name@,
            },
            names_distinct(self.component_types()),
    {
        proof {
            use_type_invariant(self);
        }
        let mut i: usize = 0;
        while i < self.components.len()
            invariant
                i <= self.components@.len(),
                names_distinct(self.components@),
                forall|k: int| 0 <= k < i ==> #[trigger] self.components@[k].name@ != name@,
            decreases self.components@.len() - i,
        {
            if str_eq(self.components[i].name.as_str(), name) {
                assert(self.components@[i as int] == self.component_types()[i as int]);
                return Some(&self.components[i]);
            }
            i = i + 1;
        }
        None
    }

    /// Register a component type; `false`, and nothing changed, if the name
    /// was already taken.
    pub fn insert_component(&mut self, desc: ComponentDesc) -> (r: bool)
        ensures
            r == forall|i: int| 0 <= i < old(self).component_types().len()
                ==> #[trigger] old(self).component_types()[i].name@ != desc.name@,
            r ==> final(self).component_types() == old(self).component_types().push(desc),
            !r ==> final(self).component_types() == old(self).component_types(),
            r ==> component_named(final(self).component_types(), desc.name@) == Some(desc),
            final(self).commands() == old(self).commands(),
            final(self).sub_table() == old(self).sub_table(),
            final(self).record_table() == old(self).record_table(),
    {
        proof {
            use_type_invariant(&*self);
        }
        if self.component(desc.name.as_str()).is_some() {
            return false;
        }
        let mut table: Vec<ComponentDesc> = Vec::new();
        std::mem::swap(&mut table, &mut self.components);
        let ghost before = table@;
        let ghost dn = desc.name@;
        table.push(desc);
        proof {
            assert forall|i: int, j: int| 0 <= i < j < table@.len() implies table@[i].name@ != table@[j].name@ by {
                if j == before.len() {
                    assert(table@[i] == before[i]);
                }
            }
            assert(table@[before.len() as int].name@ == dn);
            let j = choose|j: int| 0 <= j < table@.len() && #[trigger] table@[j].name@ == dn;
            assert(j == before.len() as int);
        }
        self.components = table;
        true
    }

    /// The component type names.
    pub fn component_names(&self) -> (r: Vec<&str>)
        ensures
            r@.len() == self.component_types().len(),
            forall|i: int| 0 <= i < r@.len() ==> (#[trigger] r@[i])@ == self.component_types()[i].name@,
    {
        let mut out: Vec<&str> = Vec::new();
        let mut i: usize = 0;
        while i < self.components.len()
            invariant
                i <= self.components@.len(),
                out@.len() == i,
                forall|k: int| 0 <= k < i ==> (#[trigger] out@[k])@ == self.components@[k].name@,
            decreases self.components@.len() - i,
        {
            out.push(self.components[i].name.as_str());
            i = i + 1;
        }
        out
    }

    /// The library command of that name.
    pub fn get(&self, name: &str) -> (r: Option<&Command>)
        ensures
            match r {
                Some(c) => exists|i: int| 0 <= i < self.commands().len() && #[trigger] self.commands()[i].0@ == name@
                    && *c == self.commands()[i].1,
                None => !has_key(self.commands(), name@),
            },
            keys_distinct(self.commands()),
    {
        proof {
            use_type_invariant(self);
        }
        match find_key(&self.map, name) {
            Some(i) => {
                assert(self.commands()[i as int].0@ == name@);
                Some(&self.map[i].1)
            },
            None => None,
        }
    }

    /// How many commands are registered.
    pub fn len(&self) -> (r: usize)
        ensures
            r == self.commands().len(),
    {
        self.map.len()
    }

    /// Whether no command is registered.
    pub fn is_empty(&self) -> (r: bool)
        ensures
            r == (self.commands().len() == 0),
    {
        self.map.len() == 0
    }

    /// The command names.
    pub fn names(&self) -> (r: Vec<&str>)
        ensures
            r@.len() == self.commands().len(),
            forall|i: int| 0 <= i < r@.len() ==> (#[trigger] r@[i])@ == self.commands()[i].0@,
    {
        let mut out: Vec<&str> = Vec::new();
        let mut i: usize = 0;
        while i < self.map.len()
            invariant
                i <= self.map@.len(),
                out@.len() == i,
                forall|k: int| 0 <= k < i ==> (#[trigger] out@[k])@ == self.map@[k].0@,
            decreases self.map@.len() - i,
        {
            out.push(self.map[i].0.as_str());
            i = i + 1;
        }
        out
    }

    /// Each command with its name.
    pub fn iter(&self) -> (r: Vec<(&str, &Command)>)
        ensures
            r@.len() == self.commands().len(),
            forall|i: int| 0 <= i < r@.len() ==> (#[trigger] r@[i]).0@ == self.commands()[i].0@
                && *r@[i].1 == self.commands()[i].1,
    {
        let mut out: Vec<(&str, &Command)> = Vec::new();
        let mut i: usize = 0;
        while i < self.map.len()
            invariant
                i <= self.map@.len(),
                out@.len() == i,
                forall|k: int| 0 <= k < i ==> (#[trigger] out@[k]).0@ == self.map@[k].0@ && *out@[k].1 == self.map@[k].1,
            decreases self.map@.len() - i,
        {
            out.push((self.map[i].0.as_str(), &self.map[i].1));
            i = i + 1;
        }
        out
    }

    /// The record type of that name.
    pub fn record(&self, name: &str) -> (r: Option<&RecordDef>)
        ensures
            r == match record_named(self.record_table(), name@) {
                Some(d) => Some(&d),
                None => None::<&RecordDef>,
            },
    {
        proof {
            use_type_invariant(self);
        }
        let mut i: usize = 0;
        while i < self.records.len()
            invariant
                i <= self.records@.len(),
                record_names_distinct(self.records@),
                forall|k: int| 0 <= k < i ==> #[trigger] self.records@[k].name@ != name@,
            decreases self.records@.len() - i,
        {
            if str_eq(self.records[i].name.as_str(), name) {
                proof {
                    assert(self.records@[i as int].name@ == name@);
                    let j = choose|j: int| 0 <= j < self.records@.len() && #[trigger] self.records@[j].name@ == name@;
                    assert(j == i as int);
                }
                return Some(&self.records[i]);
            }
            i = i + 1;
        }
        None
    }

    /// Register a record type. A record of a name already registered takes
    /// the place of the earlier one; otherwise it goes last.
    pub fn insert_record(&mut self, def: RecordDef)
        ensures
            record_named(old(self).record_table(), def.name@) is None
                ==> final(self).record_table() == old(self).record_table().push(def),
            forall|i: int| 0 <= i < old(self).record_table().len()
                && #[trigger] old(self).record_table()[i].name@ == def.name@
                ==> final(self).record_table() == old(self).record_table().update(i, def),
            record_named(final(self).record_table(), def.name@) == Some(def),
            forall|n: Seq<char>| n != def.name@ ==> #[trigger] record_named(final(self).record_table(), n)
                == record_named(old(self).record_table(), n),
            final(self).commands() == old(self).commands(),
            final(self).component_types() == old(self).component_types(),
            final(self).sub_table() == old(self).sub_table(),
    {
        proof {
            use_type_invariant(&*self);
        }
        let mut table: Vec<RecordDef> = Vec::new();
        std::mem::swap(&mut table, &mut self.records);
        let ghost before = table@;
        let mut i: usize = 0;
        while i < table.len()
            invariant
                table@ == before,
                before == old(self).records@,
                record_names_distinct(before),
                self.map@ == old(self).map@,
                self.components@ == old(self).components@,
                self.subs@ == old(self).subs@,
                keys_distinct(self.map@),
                keys_distinct(self.subs@),
                names_distinct(self.components@),
                i <= table@.len(),
                forall|k: int| 0 <= k < i ==> #[trigger] table@[k].name@ != def.name@,
            decreases table@.len() - i,
        {
            if str_eq(table[i].name.as_str(), def.name.as_str()) {
                let ghost dn = def.name@;
                let ghost dd = def;
                table.set(i, def);
                proof {
                    assert(before == old(self).record_table());
                    assert(before[i as int].name@ == dn);
                    assert(record_named(before, dn) is Some);
                    assert forall|k: int| 0 <= k < before.len() && #[trigger] before[k].name@ == dn
                        implies table@ == before.update(k, dd) by {
                        assert(k == i as int);
                    }
                    assert forall|a: int, b: int| 0 <= a < b < table@.len() implies table@[a].name@ != table@[b].name@ by {
                        assert(a != i as int ==> table@[a] == before[a]);
                        assert(b != i as int ==> table@[b] == before[b]);
                    }
                    lemma_record_named_after(before, table@, dd, i as int);
                }
                self.records = table;
                return;
            }
            i = i + 1;
        }
        table.push(def);
        proof {
            assert forall|a: int, b: int| 0 <= a < b < table@.len() implies table@[a].name@ != table@[b].name@ by {
                if b == before.len() {
                    assert(table@[a] == before[a]);
                }
            }
            assert(before == old(self).record_table());
            assert forall|k: int| 0 <= k < before.len() && #[trigger] before[k].name@ == def.name@
                implies table@ == before.update(k, def) by {
                assert(false);
            }
            lemma_record_named_after(before, table@, def, before.len() as int);
        }
        self.records = table;
    }

    /// Register a command; `false`, and nothing changed, if the name was
    /// already taken (a duplicate across libraries: the caller reports it).
    pub fn insert(&mut self, name: String, sig: Signature, symbol: String) -> (r: bool)
        ensures
            r == !has_key(old(self).commands(), name@),
            r ==> final(self).commands() == old(self).commands().push((name, Command { sig, symbol })),
            !r ==> final(self).commands() == old(self).commands(),
            final(self).component_types() == old(self).component_types(),
            final(self).sub_table() == old(self).sub_table(),
            final(self).record_table() == old(self).record_table(),
    {
        proof {
            use_type_invariant(&*self);
        }
        if find_key(&self.map, name.as_str()).is_some() {
            return false;
        }
        let mut table: Vec<(String, Command)> = Vec::new();
        std::mem::swap(&mut table, &mut self.map);
        let ghost before = table@;
        table.push((name, Command { sig, symbol }));
        proof {
            assert forall|i: int, j: int| 0 <= i < j < table@.len() implies table@[i].0@ != table@[j].0@ by {
                if j == before.len() {
                    assert(table@[i] == before[i]);
                }
            }
        }
        self.map = table;
        true
    }
}

/// The names, in order, of the subroutines that take a command's name.
pub open spec fn colliding(subs: Seq<crate::types::Sub>, cmds: Seq<(String, Command)>) -> Seq<Seq<char>>
    decreases subs.len(),
{
    if subs.len() == 0 {
        Seq::empty()
    } else {
        let rest = colliding(subs.drop_last(), cmds);
        if has_key(cmds, subs.last().name@) { rest.push(subs.last().name@) } else { rest }
    }
}

/// The collisions reported are exactly the subroutines named like a library
/// command, one entry per such subroutine, in the order they are declared;
/// no other subroutine is reported.
pub proof fn law_collisions_are_the_subs_named_like_commands(subs: Seq<crate::types::Sub>, cmds: Seq<(String, Command)>)
    ensures
        colliding(subs, cmds).len() <= subs.len(),
        forall|n: Seq<char>| #[trigger] colliding(subs, cmds).contains(n) <==> (has_key(cmds, n)
            && exists|i: int| 0 <= i < subs.len() && #[trigger] subs[i].name@ == n),
        (forall|i: int| 0 <= i < subs.len() ==> has_key(cmds, #[trigger] subs[i].name@))
            ==> colliding(subs, cmds).len() == subs.len(),
    decreases subs.len(),
{
    if subs.len() > 0 {
        let front = subs.drop_last();
        law_collisions_are_the_subs_named_like_commands(front, cmds);
        let rest = colliding(front, cmds);
        let all = colliding(subs, cmds);
        assert forall|n: Seq<char>| #[trigger] all.contains(n) <==> (has_key(cmds, n)
            && exists|i: int| 0 <= i < subs.len() && #[trigger] subs[i].name@ == n) by {
            if all.contains(n) {
                let x = choose|x: int| 0 <= x < all.len() && all[x] == n;
                if x < rest.len() {
                    assert(rest[x] == n);
                    assert(rest.contains(n));
                    let i = choose|i: int| 0 <= i < front.len() && #[trigger] front[i].name@ == n;
                    assert(subs[i] == front[i]);
                } else {
                    assert(subs[subs.len() - 1].name@ == n);
                }
            }
            if has_key(cmds, n) && exists|i: int| 0 <= i < subs.len() && #[trigger] subs[i].name@ == n {
                let i = choose|i: int| 0 <= i < subs.len() && #[trigger] subs[i].name@ == n;
                if i < subs.len() - 1 {
                    assert(front[i] == subs[i]);
                    assert(rest.contains(n));
                    let x = choose|x: int| 0 <= x < rest.len() && rest[x] == n;
                    assert(all[x] == n);
                } else {
                    assert(all[all.len() - 1] == n);
                }
            }
        }
        if forall|i: int| 0 <= i < subs.len() ==> has_key(cmds, #[trigger] subs[i].name@) {
            assert forall|i: int| 0 <= i < front.len() implies has_key(cmds, #[trigger] front[i].name@) by {
                assert(front[i] == subs[i]);
            }
            assert(has_key(cmds, subs[subs.len() - 1].name@));
        }
    }
}

proof fn lemma_registrable_step(subs: Seq<crate::types::Sub>, i: int, cmds: Seq<(String, Command)>, n: Seq<char>)
    requires
        0 <= i < subs.len(),
    ensures
        registrable(subs.take(i + 1), cmds, n) <==> (registrable(subs.take(i), cmds, n)
            || (n == subs[i].name@ && !has_key(cmds, n))),
{
    if registrable(subs.take(i + 1), cmds, n) {
        let k = choose|k: int| 0 <= k < subs.take(i + 1).len() && #[trigger] subs.take(i + 1)[k].name@ == n;
        if k < i {
            assert(subs.take(i)[k] == subs.take(i + 1)[k]);
            assert(registrable(subs.take(i), cmds, n));
        } else {
            assert(subs.take(i + 1)[k] == subs[i]);
        }
    }
    if registrable(subs.take(i), cmds, n) {
        let k = choose|k: int| 0 <= k < subs.take(i).len() && #[trigger] subs.take(i)[k].name@ == n;
        assert(subs.take(i)[k] == subs.take(i + 1)[k]);
    }
    if n == subs[i].name@ && !has_key(cmds, n) {
        assert(subs.take(i + 1)[i] == subs[i]);
        assert(registrable(subs.take(i + 1), cmds, n));
    }
}

/// `g` is the signature of subroutine `s`: its parameters' types and names,
/// which of them have defaults, and its return type.
pub open spec fn signature_of_sub(g: Signature, s: Sub) -> bool {
    &&& g.params@.len() == s.params@.len() && g.names@.len() == s.params@.len()
    &&& g.defaults@.len() == s.defaults@.len()
    &&& forall|k: int| 0 <= k < s.params@.len() ==> #[trigger] g.params@[k] == s.params@[k].1 && g.names@[k]@ == s.params@[k].0@
    &&& forall|k: int| 0 <= k < s.defaults@.len() ==> (#[trigger] g.defaults@[k] is Some <==> s.defaults@[k] is Some)
    &&& g.ret == s.ret
}

/// `k` is the last of `subs` named `n`.
pub open spec fn last_named(subs: Seq<Sub>, n: Seq<char>, k: int) -> bool {
    &&& 0 <= k < subs.len()
    &&& subs[k].name@ == n
    &&& forall|j: int| k < j < subs.len() ==> subs[j].name@ != n
}

/// Entry `e` of the table after registering `subs`: a subroutine's name
/// carries the signature of the last subroutine of that name; any other
/// name carries what the table held before.
pub open spec fn registered_entry(
    e: (String, Signature),
    before: Seq<(String, Signature)>,
    subs: Seq<Sub>,
    cmds: Seq<(String, Command)>,
) -> bool {
    if registrable(subs, cmds, e.0@) {
        exists|k: int| #[trigger] last_named(subs, e.0@, k) && signature_of_sub(e.1, subs[k])
    } else {
        exists|j: int| 0 <= j < before.len() && #[trigger] before[j].0@ == e.0@ && before[j].1 == e.1
    }
}

/// An entry stays what it was when the next subroutine is not registered
/// under its name.
proof fn lemma_registered_step(
    e: (String, Signature),
    before: Seq<(String, Signature)>,
    subs: Seq<Sub>,
    i: int,
    cmds: Seq<(String, Command)>,
)
    requires
        0 <= i < subs.len(),
        e.0@ != subs[i].name@ || has_key(cmds, subs[i].name@),
        registered_entry(e, before, subs.take(i), cmds),
    ensures
        registered_entry(e, before, subs.take(i + 1), cmds),
{
    let n = e.0@;
    lemma_registrable_step(subs, i, cmds, n);
    if registrable(subs.take(i), cmds, n) {
        let k = choose|k: int| #[trigger] last_named(subs.take(i), n, k) && signature_of_sub(e.1, subs.take(i)[k]);
        assert(subs.take(i + 1)[k] == subs.take(i)[k]);
        assert(subs.take(i + 1)[i] == subs[i]);
        assert forall|j: int| k < j < subs.take(i + 1).len() implies (#[trigger] subs.take(i + 1)[j]).name@ != n by {
            if j < i {
                assert(subs.take(i + 1)[j] == subs.take(i)[j]);
            }
        }
        assert(last_named(subs.take(i + 1), n, k));
    }
}

/// The subroutine just registered carries its own signature.
proof fn lemma_registered_new(
    e: (String, Signature),
    before: Seq<(String, Signature)>,
    subs: Seq<Sub>,
    i: int,
    cmds: Seq<(String, Command)>,
)
    requires
        0 <= i < subs.len(),
        e.0@ == subs[i].name@,
        !has_key(cmds, subs[i].name@),
        signature_of_sub(e.1, subs[i]),
    ensures
        registered_entry(e, before, subs.take(i + 1), cmds),
{
    lemma_registrable_step(subs, i, cmds, e.0@);
    assert(subs.take(i + 1)[i] == subs[i]);
    assert(last_named(subs.take(i + 1), e.0@, i));
}

/// Some subroutine is named `n`, and no command is.
pub open spec fn registrable(subs: Seq<crate::types::Sub>, cmds: Seq<(String, Command)>, n: Seq<char>) -> bool {
    !has_key(cmds, n) && exists|k: int| 0 <= k < subs.len() && #[trigger] subs[k].name@ == n
}

/// Every command's runtime symbol is its name with the runtime's `oe_` prefix.
pub open spec fn symbols_prefixed(cmds: Seq<(String, Command)>) -> bool {
    forall|i: int| 0 <= i < cmds.len() ==> (#[trigger] cmds[i]).1.symbol@ == "oe_"@ + cmds[i].0@
}

/// The names of the built-in core commands.
pub open spec fn core_name(n: Seq<char>) -> bool {
    n == "print_int"@ || n == "print_int64"@ || n == "print_double"@ || n == "print_text"@ || n == "read_line"@ || n == "input_ended"@ || n == "ask"@ || n == "last_error_code"@ || n == "last_error_text"@ || n == "abs_int"@ || n == "min_int"@ || n == "max_int"@ || n == "mod_int"@ || n == "pow_int"@ || n == "sqrt"@ || n == "sin"@ || n == "cos"@ || n == "tan"@ || n == "pow"@ || n == "exp"@ || n == "ln"@ || n == "log10"@ || n == "floor"@ || n == "ceil"@ || n == "round"@ || n == "abs_double"@ || n == "min_double"@ || n == "max_double"@ || n == "int_to_double"@ || n == "double_to_int"@ || n == "int_to_int64"@ || n == "int64_to_int"@ || n == "int_to_text"@ || n == "int64_to_text"@ || n == "double_to_text"@ || n == "text_to_int"@ || n == "text_to_double"@ || n == "text_eq"@ || n == "length"@ || n == "uppercase"@ || n == "lowercase"@ || n == "trim"@ || n == "substr"@ || n == "find"@ || n == "replace"@ || n == "concat"@ || n == "repeat"@ || n == "reverse"@ || n == "now"@ || n == "year"@ || n == "format_time"@
}

/// A command as a table of them lists it: its name, its parameter types and
/// its result.
pub open spec fn command_entry(c: (String, Command)) -> (Seq<char>, Seq<Ty>, Option<Ty>) {
    (c.0@, c.1.sig.params@, c.1.sig.ret)
}

/// The commands of `cmds`, as a table lists them.
pub open spec fn command_entries(cmds: Seq<(String, Command)>) -> Seq<(Seq<char>, Seq<Ty>, Option<Ty>)> {
    cmds.map_values(|c: (String, Command)| command_entry(c))
}

/// Table `t` with command `n` added at its end, unless a command of that
/// name is already in it.
pub open spec fn with_command(
    t: Seq<(Seq<char>, Seq<Ty>, Option<Ty>)>,
    n: Seq<char>,
    params: Seq<Ty>,
    ret: Option<Ty>,
) -> Seq<(Seq<char>, Seq<Ty>, Option<Ty>)> {
    if exists|k: int| 0 <= k < t.len() && #[trigger] t[k].0 == n { t } else { t.push((n, params, ret)) }
}

/// The core commands in the order they are registered, each with its
/// parameter types and result.
pub open spec fn core_commands() -> Seq<(Seq<char>, Seq<Ty>, Option<Ty>)> {
    let t = Seq::empty();
    let t = with_command(t, "print_int"@, seq![Ty::Int], None);
    let t = with_command(t, "print_int64"@, seq![Ty::Int64], None);
    let t = with_command(t, "print_double"@, seq![Ty::Double], None);
    let t = with_command(t, "print_text"@, seq![Ty::Text], None);
    let t = with_command(t, "read_line"@, Seq::<Ty>::empty(), Some(Ty::Text));
    let t = with_command(t, "input_ended"@, Seq::<Ty>::empty(), Some(Ty::Bool));
    let t = with_command(t, "ask"@, seq![Ty::Text], Some(Ty::Text));
    let t = with_command(t, "last_error_code"@, Seq::<Ty>::empty(), Some(Ty::Int));
    let t = with_command(t, "last_error_text"@, Seq::<Ty>::empty(), Some(Ty::Text));
    let t = with_command(t, "abs_int"@, seq![Ty::Int], Some(Ty::Int));
    let t = with_command(t, "min_int"@, seq![Ty::Int, Ty::Int], Some(Ty::Int));
    let t = with_command(t, "max_int"@, seq![Ty::Int, Ty::Int], Some(Ty::Int));
    let t = with_command(t, "mod_int"@, seq![Ty::Int, Ty::Int], Some(Ty::Int));
    let t = with_command(t, "pow_int"@, seq![Ty::Int, Ty::Int], Some(Ty::Int));
    let t = with_command(t, "sqrt"@, seq![Ty::Double], Some(Ty::Double));
    let t = with_command(t, "sin"@, seq![Ty::Double], Some(Ty::Double));
    let t = with_command(t, "cos"@, seq![Ty::Double], Some(Ty::Double));
    let t = with_command(t, "tan"@, seq![Ty::Double], Some(Ty::Double));
    let t = with_command(t, "pow"@, seq![Ty::Double, Ty::Double], Some(Ty::Double));
    let t = with_command(t, "exp"@, seq![Ty::Double], Some(Ty::Double));
    let t = with_command(t, "ln"@, seq![Ty::Double], Some(Ty::Double));
    let t = with_command(t, "log10"@, seq![Ty::Double], Some(Ty::Double));
    let t = with_command(t, "floor"@, seq![Ty::Double], Some(Ty::Double));
    let t = with_command(t, "ceil"@, seq![Ty::Double], Some(Ty::Double));
    let t = with_command(t, "round"@, seq![Ty::Double], Some(Ty::Double));
    let t = with_command(t, "abs_double"@, seq![Ty::Double], Some(Ty::Double));
    let t = with_command(t, "min_double"@, seq![Ty::Double, Ty::Double], Some(Ty::Double));
    let t = with_command(t, "max_double"@, seq![Ty::Double, Ty::Double], Some(Ty::Double));
    let t = with_command(t, "int_to_double"@, seq![Ty::Int], Some(Ty::Double));
    let t = with_command(t, "double_to_int"@, seq![Ty::Double], Some(Ty::Int));
    let t = with_command(t, "int_to_int64"@, seq![Ty::Int], Some(Ty::Int64));
    let t = with_command(t, "int64_to_int"@, seq![Ty::Int64], Some(Ty::Int));
    let t = with_command(t, "int_to_text"@, seq![Ty::Int], Some(Ty::Text));
    let t = with_command(t, "int64_to_text"@, seq![Ty::Int64], Some(Ty::Text));
    let t = with_command(t, "double_to_text"@, seq![Ty::Double], Some(Ty::Text));
    let t = with_command(t, "text_to_int"@, seq![Ty::Text], Some(Ty::Int));
    let t = with_command(t, "text_to_double"@, seq![Ty::Text], Some(Ty::Double));
    let t = with_command(t, "text_eq"@, seq![Ty::Text, Ty::Text], Some(Ty::Bool));
    let t = with_command(t, "length"@, seq![Ty::Text], Some(Ty::Int));
    let t = with_command(t, "uppercase"@, seq![Ty::Text], Some(Ty::Text));
    let t = with_command(t, "lowercase"@, seq![Ty::Text], Some(Ty::Text));
    let t = with_command(t, "trim"@, seq![Ty::Text], Some(Ty::Text));
    let t = with_command(t, "substr"@, seq![Ty::Text, Ty::Int, Ty::Int], Some(Ty::Text));
    let t = with_command(t, "find"@, seq![Ty::Text, Ty::Text], Some(Ty::Int));
    let t = with_command(t, "replace"@, seq![Ty::Text, Ty::Text, Ty::Text], Some(Ty::Text));
    let t = with_command(t, "concat"@, seq![Ty::Text, Ty::Text], Some(Ty::Text));
    let t = with_command(t, "repeat"@, seq![Ty::Text, Ty::Int], Some(Ty::Text));
    let t = with_command(t, "reverse"@, seq![Ty::Text], Some(Ty::Text));
    let t = with_command(t, "now"@, Seq::<Ty>::empty(), Some(Ty::Int64));
    let t = with_command(t, "year"@, seq![Ty::Int64], Some(Ty::Int));
    let t = with_command(t, "format_time"@, seq![Ty::Int64, Ty::Text], Some(Ty::Text));
    t
}

/// Register one core command under its name, calling `oe_NAME`.
fn add_core(r: &mut Registry, name: &str, params: Vec<Ty>, ret: Option<Ty>)
    requires
        symbols_prefixed(old(r).commands()),
    ensures
        symbols_prefixed(final(r).commands()),
        has_key(old(r).commands(), name@) ==> final(r).commands() == old(r).commands(),
        !has_key(old(r).commands(), name@) ==> {
            &&& final(r).commands().len() == old(r).commands().len() + 1
            &&& final(r).commands().drop_last() == old(r).commands()
            &&& final(r).commands().last().0@ == name@
            &&& final(r).commands().last().1.sig.params == params
            &&& final(r).commands().last().1.sig.ret == ret
            &&& final(r).commands().last().1.sig.names@.len() == 0
            &&& final(r).commands().last().1.sig.defaults@.len() == 0
            &&& final(r).commands().last().1.symbol@ == "oe_"@ + name@
        },
        has_key(final(r).commands(), name@),
        command_entries(final(r).commands()) == with_command(command_entries(old(r).commands()), name@, params@, ret),
        forall|k: Seq<char>| #[trigger] has_key(old(r).commands(), k) ==> has_key(final(r).commands(), k),
        final(r).component_types() == old(r).component_types(),
        final(r).sub_table() == old(r).sub_table(),
        final(r).record_table() == old(r).record_table(),
{
    let mut symbol = text("oe_");
    push_str(&mut symbol, name);
    let ghost before = r.commands();
    let sig = Signature::simple(params, ret);
    let added = r.insert(text(name), sig, symbol);
    proof {
        let eb = command_entries(before);
        assert((exists|k: int| 0 <= k < eb.len() && #[trigger] eb[k].0 == name@) <==> has_key(before, name@)) by {
            if has_key(before, name@) {
                let j = choose|j: int| 0 <= j < before.len() && #[trigger] before[j].0@ == name@;
                assert(eb[j].0 == name@);
            }
        }
        if added {
            assert(command_entries(r.commands()) =~= eb.push((name@, params@, ret)));
        }
        if added {
            assert(r.commands()[before.len() as int].0@ == name@);
            assert(r.commands().drop_last() =~= before);
            assert forall|k: Seq<char>| #[trigger] has_key(before, k) implies has_key(r.commands(), k) by {
                let j = choose|j: int| 0 <= j < before.len() && #[trigger] before[j].0@ == k;
                assert(r.commands()[j] == before[j]);
            }
        }
        if added {
            assert forall|i: int| 0 <= i < r.commands().len() implies
                (#[trigger] r.commands()[i]).1.symbol@ == "oe_"@ + r.commands()[i].0@ by {
                if i < before.len() {
                    assert(r.commands()[i] == before[i]);
                }
            }
        }
    }
}

impl Registry {
    /// The built-in core command set: input and output, errors, integer and
    /// floating-point math, conversions, text, and date and time. Every
    /// command calls the runtime function of its own name with `oe_` in front.
    #[verifier::rlimit(100)]
    pub fn core_set() -> (r: Registry)
        ensures
            symbols_prefixed(r.commands()),
            forall|n: Seq<char>| core_name(n) ==> #[trigger] has_key(r.commands(), n),
            r.component_types().len() == 0,
            r.sub_table().len() == 0,
            r.record_table().len() == 0,
            command_entries(r.commands()) == core_commands(),
    {
        let mut r = Registry::new();
        let ghost t: Seq<(Seq<char>, Seq<Ty>, Option<Ty>)> = Seq::empty();
        assert(command_entries(r.commands()) =~= t);
        // I/O
        let ps = vec![Ty::Int];
        proof { assert(ps@ == seq![Ty::Int]); }
        add_core(&mut r, "print_int", ps, None);
        proof { t = with_command(t, "print_int"@, seq![Ty::Int], None); }
        let ps = vec![Ty::Int64];
        proof { assert(ps@ == seq![Ty::Int64]); }
        add_core(&mut r, "print_int64", ps, None);
        proof { t = with_command(t, "print_int64"@, seq![Ty::Int64], None); }
        let ps = vec![Ty::Double];
        proof { assert(ps@ == seq![Ty::Double]); }
        add_core(&mut r, "print_double", ps, None);
        proof { t = with_command(t, "print_double"@, seq![Ty::Double], None); }
        let ps = vec![Ty::Text];
        proof { assert(ps@ == seq![Ty::Text]); }
        add_core(&mut r, "print_text", ps, None);
        proof { t = with_command(t, "print_text"@, seq![Ty::Text], None); }
        let ps = vec![];
        proof { assert(ps@ == Seq::<Ty>::empty()); }
        add_core(&mut r, "read_line", ps, Some(Ty::Text));
        proof { t = with_command(t, "read_line"@, Seq::<Ty>::empty(), Some(Ty::Text)); }
        let ps = vec![];
        proof { assert(ps@ == Seq::<Ty>::empty()); }
        add_core(&mut r, "input_ended", ps, Some(Ty::Bool));
        proof { t = with_command(t, "input_ended"@, Seq::<Ty>::empty(), Some(Ty::Bool)); }
        let ps = vec![Ty::Text];
        proof { assert(ps@ == seq![Ty::Text]); }
        add_core(&mut r, "ask", ps, Some(Ty::Text));
        proof { t = with_command(t, "ask"@, seq![Ty::Text], Some(Ty::Text)); }
        // Errors
        let ps = vec![];
        proof { assert(ps@ == Seq::<Ty>::empty()); }
        add_core(&mut r, "last_error_code", ps, Some(Ty::Int));
        proof { t = with_command(t, "last_error_code"@, Seq::<Ty>::empty(), Some(Ty::Int)); }
        let ps = vec![];
        proof { assert(ps@ == Seq::<Ty>::empty()); }
        add_core(&mut r, "last_error_text", ps, Some(Ty::Text));
        proof { t = with_command(t, "last_error_text"@, Seq::<Ty>::empty(), Some(Ty::Text)); }
        // Integer math
        let ps = vec![Ty::Int];
        proof { assert(ps@ == seq![Ty::Int]); }
        add_core(&mut r, "abs_int", ps, Some(Ty::Int));
        proof { t = with_command(t, "abs_int"@, seq![Ty::Int], Some(Ty::Int)); }
        let ps = vec![Ty::Int, Ty::Int];
        proof { assert(ps@ == seq![Ty::Int, Ty::Int]); }
        add_core(&mut r, "min_int", ps, Some(Ty::Int));
        proof { t = with_command(t, "min_int"@, seq![Ty::Int, Ty::Int], Some(Ty::Int)); }
        let ps = vec![Ty::Int, Ty::Int];
        proof { assert(ps@ == seq![Ty::Int, Ty::Int]); }
        add_core(&mut r, "max_int", ps, Some(Ty::Int));
        proof { t = with_command(t, "max_int"@, seq![Ty::Int, Ty::Int], Some(Ty::Int)); }
        let ps = vec![Ty::Int, Ty::Int];
        proof { assert(ps@ == seq![Ty::Int, Ty::Int]); }
        add_core(&mut r, "mod_int", ps, Some(Ty::Int));
        proof { t = with_command(t, "mod_int"@, seq![Ty::Int, Ty::Int], Some(Ty::Int)); }
        let ps = vec![Ty::Int, Ty::Int];
        proof { assert(ps@ == seq![Ty::Int, Ty::Int]); }
        add_core(&mut r, "pow_int", ps, Some(Ty::Int));
        proof { t = with_command(t, "pow_int"@, seq![Ty::Int, Ty::Int], Some(Ty::Int)); }
        // Floating-point math
        let ps = vec![Ty::Double];
        proof { assert(ps@ == seq![Ty::Double]); }
        add_core(&mut r, "sqrt", ps, Some(Ty::Double));
        proof { t = with_command(t, "sqrt"@, seq![Ty::Double], Some(Ty::Double)); }
        let ps = vec![Ty::Double];
        proof { assert(ps@ == seq![Ty::Double]); }
        add_core(&mut r, "sin", ps, Some(Ty::Double));
        proof { t = with_command(t, "sin"@, seq![Ty::Double], Some(Ty::Double)); }
        let ps = vec![Ty::Double];
        proof { assert(ps@ == seq![Ty::Double]); }
        add_core(&mut r, "cos", ps, Some(Ty::Double));
        proof { t = with_command(t, "cos"@, seq![Ty::Double], Some(Ty::Double)); }
        let ps = vec![Ty::Double];
        proof { assert(ps@ == seq![Ty::Double]); }
        add_core(&mut r, "tan", ps, Some(Ty::Double));
        proof { t = with_command(t, "tan"@, seq![Ty::Double], Some(Ty::Double)); }
        let ps = vec![Ty::Double, Ty::Double];
        proof { assert(ps@ == seq![Ty::Double, Ty::Double]); }
        add_core(&mut r, "pow", ps, Some(Ty::Double));
        proof { t = with_command(t, "pow"@, seq![Ty::Double, Ty::Double], Some(Ty::Double)); }
        let ps = vec![Ty::Double];
        proof { assert(ps@ == seq![Ty::Double]); }
        add_core(&mut r, "exp", ps, Some(Ty::Double));
        proof { t = with_command(t, "exp"@, seq![Ty::Double], Some(Ty::Double)); }
        let ps = vec![Ty::Double];
        proof { assert(ps@ == seq![Ty::Double]); }
        add_core(&mut r, "ln", ps, Some(Ty::Double));
        proof { t = with_command(t, "ln"@, seq![Ty::Double], Some(Ty::Double)); }
        let ps = vec![Ty::Double];
        proof { assert(ps@ == seq![Ty::Double]); }
        add_core(&mut r, "log10", ps, Some(Ty::Double));
        proof { t = with_command(t, "log10"@, seq![Ty::Double], Some(Ty::Double)); }
        let ps = vec![Ty::Double];
        proof { assert(ps@ == seq![Ty::Double]); }
        add_core(&mut r, "floor", ps, Some(Ty::Double));
        proof { t = with_command(t, "floor"@, seq![Ty::Double], Some(Ty::Double)); }
        let ps = vec![Ty::Double];
        proof { assert(ps@ == seq![Ty::Double]); }
        add_core(&mut r, "ceil", ps, Some(Ty::Double));
        proof { t = with_command(t, "ceil"@, seq![Ty::Double], Some(Ty::Double)); }
        let ps = vec![Ty::Double];
        proof { assert(ps@ == seq![Ty::Double]); }
        add_core(&mut r, "round", ps, Some(Ty::Double));
        proof { t = with_command(t, "round"@, seq![Ty::Double], Some(Ty::Double)); }
        let ps = vec![Ty::Double];
        proof { assert(ps@ == seq![Ty::Double]); }
        add_core(&mut r, "abs_double", ps, Some(Ty::Double));
        proof { t = with_command(t, "abs_double"@, seq![Ty::Double], Some(Ty::Double)); }
        let ps = vec![Ty::Double, Ty::Double];
        proof { assert(ps@ == seq![Ty::Double, Ty::Double]); }
        add_core(&mut r, "min_double", ps, Some(Ty::Double));
        proof { t = with_command(t, "min_double"@, seq![Ty::Double, Ty::Double], Some(Ty::Double)); }
        let ps = vec![Ty::Double, Ty::Double];
        proof { assert(ps@ == seq![Ty::Double, Ty::Double]); }
        add_core(&mut r, "max_double", ps, Some(Ty::Double));
        proof { t = with_command(t, "max_double"@, seq![Ty::Double, Ty::Double], Some(Ty::Double)); }
        // Conversions
        let ps = vec![Ty::Int];
        proof { assert(ps@ == seq![Ty::Int]); }
        add_core(&mut r, "int_to_double", ps, Some(Ty::Double));
        proof { t = with_command(t, "int_to_double"@, seq![Ty::Int], Some(Ty::Double)); }
        let ps = vec![Ty::Double];
        proof { assert(ps@ == seq![Ty::Double]); }
        add_core(&mut r, "double_to_int", ps, Some(Ty::Int));
        proof { t = with_command(t, "double_to_int"@, seq![Ty::Double], Some(Ty::Int)); }
        let ps = vec![Ty::Int];
        proof { assert(ps@ == seq![Ty::Int]); }
        add_core(&mut r, "int_to_int64", ps, Some(Ty::Int64));
        proof { t = with_command(t, "int_to_int64"@, seq![Ty::Int], Some(Ty::Int64)); }
        let ps = vec![Ty::Int64];
        proof { assert(ps@ == seq![Ty::Int64]); }
        add_core(&mut r, "int64_to_int", ps, Some(Ty::Int));
        proof { t = with_command(t, "int64_to_int"@, seq![Ty::Int64], Some(Ty::Int)); }
        let ps = vec![Ty::Int];
        proof { assert(ps@ == seq![Ty::Int]); }
        add_core(&mut r, "int_to_text", ps, Some(Ty::Text));
        proof { t = with_command(t, "int_to_text"@, seq![Ty::Int], Some(Ty::Text)); }
        let ps = vec![Ty::Int64];
        proof { assert(ps@ == seq![Ty::Int64]); }
        add_core(&mut r, "int64_to_text", ps, Some(Ty::Text));
        proof { t = with_command(t, "int64_to_text"@, seq![Ty::Int64], Some(Ty::Text)); }
        let ps = vec![Ty::Double];
        proof { assert(ps@ == seq![Ty::Double]); }
        add_core(&mut r, "double_to_text", ps, Some(Ty::Text));
        proof { t = with_command(t, "double_to_text"@, seq![Ty::Double], Some(Ty::Text)); }
        let ps = vec![Ty::Text];
        proof { assert(ps@ == seq![Ty::Text]); }
        add_core(&mut r, "text_to_int", ps, Some(Ty::Int));
        proof { t = with_command(t, "text_to_int"@, seq![Ty::Text], Some(Ty::Int)); }
        let ps = vec![Ty::Text];
        proof { assert(ps@ == seq![Ty::Text]); }
        add_core(&mut r, "text_to_double", ps, Some(Ty::Double));
        proof { t = with_command(t, "text_to_double"@, seq![Ty::Text], Some(Ty::Double)); }
        // Text
        let ps = vec![Ty::Text, Ty::Text];
        proof { assert(ps@ == seq![Ty::Text, Ty::Text]); }
        add_core(&mut r, "text_eq", ps, Some(Ty::Bool));
        proof { t = with_command(t, "text_eq"@, seq![Ty::Text, Ty::Text], Some(Ty::Bool)); }
        let ps = vec![Ty::Text];
        proof { assert(ps@ == seq![Ty::Text]); }
        add_core(&mut r, "length", ps, Some(Ty::Int));
        proof { t = with_command(t, "length"@, seq![Ty::Text], Some(Ty::Int)); }
        let ps = vec![Ty::Text];
        proof { assert(ps@ == seq![Ty::Text]); }
        add_core(&mut r, "uppercase", ps, Some(Ty::Text));
        proof { t = with_command(t, "uppercase"@, seq![Ty::Text], Some(Ty::Text)); }
        let ps = vec![Ty::Text];
        proof { assert(ps@ == seq![Ty::Text]); }
        add_core(&mut r, "lowercase", ps, Some(Ty::Text));
        proof { t = with_command(t, "lowercase"@, seq![Ty::Text], Some(Ty::Text)); }
        let ps = vec![Ty::Text];
        proof { assert(ps@ == seq![Ty::Text]); }
        add_core(&mut r, "trim", ps, Some(Ty::Text));
        proof { t = with_command(t, "trim"@, seq![Ty::Text], Some(Ty::Text)); }
        let ps = vec![Ty::Text, Ty::Int, Ty::Int];
        proof { assert(ps@ == seq![Ty::Text, Ty::Int, Ty::Int]); }
        add_core(&mut r, "substr", ps, Some(Ty::Text));
        proof { t = with_command(t, "substr"@, seq![Ty::Text, Ty::Int, Ty::Int], Some(Ty::Text)); }
        let ps = vec![Ty::Text, Ty::Text];
        proof { assert(ps@ == seq![Ty::Text, Ty::Text]); }
        add_core(&mut r, "find", ps, Some(Ty::Int));
        proof { t = with_command(t, "find"@, seq![Ty::Text, Ty::Text], Some(Ty::Int)); }
        let ps = vec![Ty::Text, Ty::Text, Ty::Text];
        proof { assert(ps@ == seq![Ty::Text, Ty::Text, Ty::Text]); }
        add_core(&mut r, "replace", ps, Some(Ty::Text));
        proof { t = with_command(t, "replace"@, seq![Ty::Text, Ty::Text, Ty::Text], Some(Ty::Text)); }
        let ps = vec![Ty::Text, Ty::Text];
        proof { assert(ps@ == seq![Ty::Text, Ty::Text]); }
        add_core(&mut r, "concat", ps, Some(Ty::Text));
        proof { t = with_command(t, "concat"@, seq![Ty::Text, Ty::Text], Some(Ty::Text)); }
        let ps = vec![Ty::Text, Ty::Int];
        proof { assert(ps@ == seq![Ty::Text, Ty::Int]); }
        add_core(&mut r, "repeat", ps, Some(Ty::Text));
        proof { t = with_command(t, "repeat"@, seq![Ty::Text, Ty::Int], Some(Ty::Text)); }
        let ps = vec![Ty::Text];
        proof { assert(ps@ == seq![Ty::Text]); }
        add_core(&mut r, "reverse", ps, Some(Ty::Text));
        proof { t = with_command(t, "reverse"@, seq![Ty::Text], Some(Ty::Text)); }
        // Date and time
        let ps = vec![];
        proof { assert(ps@ == Seq::<Ty>::empty()); }
        add_core(&mut r, "now", ps, Some(Ty::Int64));
        proof { t = with_command(t, "now"@, Seq::<Ty>::empty(), Some(Ty::Int64)); }
        let ps = vec![Ty::Int64];
        proof { assert(ps@ == seq![Ty::Int64]); }
        add_core(&mut r, "year", ps, Some(Ty::Int));
        proof { t = with_command(t, "year"@, seq![Ty::Int64], Some(Ty::Int)); }
        let ps = vec![Ty::Int64, Ty::Text];
        proof { assert(ps@ == seq![Ty::Int64, Ty::Text]); }
        add_core(&mut r, "format_time", ps, Some(Ty::Text));
        proof { t = with_command(t, "format_time"@, seq![Ty::Int64, Ty::Text], Some(Ty::Text)); }
        r
    }
}

impl Default for Registry {
    /// An empty registry.
    fn default() -> (r: Registry)
        ensures
            r.commands().len() == 0,
            r.component_types().len() == 0,
            r.sub_table().len() == 0,
            r.record_table().len() == 0,
    {
        Registry::new()
    }
}

} // verus!
