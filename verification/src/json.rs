//! JSON values as this crate reads and builds them.
//!
//! A body on the wire is opaque to the harness, but the harness still reads a few fields of it (a
//! `type`, a `timer_id`), rewrites stimulus templates, and writes journal entries in one canonical
//! form. Those readings are done on this type. Text goes in and out at the edge of the crate.

use vstd::prelude::*;
use crate::text::{seq_le, text_le, same_text, lemma_seq_le_total, lemma_seq_le_transitive, lemma_seq_le_reflexive,
    lemma_seq_le_antisymmetric};
use vstd::seq_lib::{to_multiset_build, to_multiset_remove, to_multiset_insert, to_multiset_contains, to_multiset_len};

verus! {

/// A JSON value.
///
/// Numbers keep the three shapes JSON numbers take: a non-negative integer, a negative integer,
/// and any other number, which is carried as the bits of its IEEE 754 double and never read.
#[derive(Debug)]
pub enum Json {
    Null,
    Bool(bool),
    Uint(u64),
    /// A negative integer.
    Int(i64),
    /// A number that is not an integer, as the bits of its double.
    Float(u64),
    Str(String),
    Array(Vec<Json>),
    /// Entries in the order they are held. Keys are distinct in a value read from text.
    Object(Vec<(String, Json)>),
}

/// The mathematical value of a [`Json`].
pub enum JsonV {
    Null,
    Bool(bool),
    Uint(u64),
    Int(i64),
    Float(u64),
    Str(Seq<char>),
    Array(Seq<JsonV>),
    Object(Seq<(Seq<char>, JsonV)>),
}

pub open spec fn view_json(j: Json) -> JsonV
    decreases j,
{
    match j {
        Json::Null => JsonV::Null,
        Json::Bool(b) => JsonV::Bool(b),
        Json::Uint(u) => JsonV::Uint(u),
        Json::Int(i) => JsonV::Int(i),
        Json::Float(f) => JsonV::Float(f),
        Json::Str(s) => JsonV::Str(s@),
        Json::Array(a) => JsonV::Array(
            Seq::new(a@.len(), |i: int| if 0 <= i < a@.len() { view_json(a@[i]) } else { JsonV::Null }),
        ),
        Json::Object(es) => JsonV::Object(
            Seq::new(
                es@.len(),
                |i: int|
                    if 0 <= i < es@.len() {
                        (es@[i].0@, view_json(es@[i].1))
                    } else {
                        (Seq::empty(), JsonV::Null)
                    },
            ),
        ),
    }
}

impl View for Json {
    type V = JsonV;

    open spec fn view(&self) -> JsonV {
        view_json(*self)
    }
}

/// The entries of an object, each key and value taken by its view.
pub open spec fn entries_view(es: Seq<(String, Json)>) -> Seq<(Seq<char>, JsonV)> {
    Seq::new(es.len(), |i: int| (es[i].0@, es[i].1@))
}

// ------------------------------------------------------------------ reading

/// Index of the first entry at or after `from` whose key is `key`, or the length.
pub open spec fn spec_find(es: Seq<(Seq<char>, JsonV)>, key: Seq<char>, from: int) -> int
    decreases es.len() - from,
{
    if from < 0 || from >= es.len() {
        es.len() as int
    } else if es[from].0 == key {
        from
    } else {
        spec_find(es, key, from + 1)
    }
}

/// The value of the first entry named `key`, if `v` is an object holding one.
pub open spec fn spec_get(v: JsonV, key: Seq<char>) -> Option<JsonV> {
    match v {
        JsonV::Object(es) => {
            let i = spec_find(es, key, 0);
            if i < es.len() {
                Some(es[i].1)
            } else {
                None
            }
        },
        _ => None,
    }
}

pub open spec fn spec_as_str(v: Option<JsonV>) -> Option<Seq<char>> {
    match v {
        Some(JsonV::Str(s)) => Some(s),
        _ => None,
    }
}

pub open spec fn spec_as_u64(v: Option<JsonV>) -> Option<u64> {
    match v {
        Some(JsonV::Uint(u)) => Some(u),
        _ => None,
    }
}

pub open spec fn spec_as_i64(v: Option<JsonV>) -> Option<i64> {
    match v {
        Some(JsonV::Uint(u)) => if u <= i64::MAX {
            Some(u as i64)
        } else {
            None
        },
        Some(JsonV::Int(i)) => Some(i),
        _ => None,
    }
}

/// The string at `key`, or the empty string when it is absent or not a string.
pub open spec fn spec_str_field(v: JsonV, key: Seq<char>) -> Seq<char> {
    match spec_as_str(spec_get(v, key)) {
        Some(s) => s,
        None => Seq::empty(),
    }
}

pub proof fn lemma_find_bounds(es: Seq<(Seq<char>, JsonV)>, key: Seq<char>, from: int)
    requires
        0 <= from,
    ensures
        from <= spec_find(es, key, from) <= es.len() || from > es.len(),
        spec_find(es, key, from) < es.len() ==> es[spec_find(es, key, from)].0 == key,
    decreases es.len() - from,
{
    if from < es.len() && es[from].0 != key {
        lemma_find_bounds(es, key, from + 1);
    }
}

impl Json {
    /// A string value.
    pub fn str(s: &str) -> (j: Json)
        ensures
            j@ == JsonV::Str(s@),
    {
        Json::Str(crate::text::text(s))
    }

    /// The value of the first entry named `key`, if this is an object holding one.
    pub fn get(&self, key: &str) -> (r: Option<&Json>)
        ensures
            r matches Some(x) ==> spec_get(self@, key@) == Some(x@),
            r is None ==> spec_get(self@, key@) is None,
    {
        match self {
            Json::Object(es) => {
                let ghost ev = entries_view(es@);
                proof {
                    if let JsonV::Object(x) = self@ {
                        assert(x =~= ev);
                    }
                }
                let mut i: usize = 0;
                while i < es.len()
                    invariant
                        0 <= i <= es@.len(),
                        self@ == JsonV::Object(ev),
                        ev == entries_view(es@),
                        spec_find(ev, key@, 0) == spec_find(ev, key@, i as int),
                    decreases es@.len() - i,
                {
                    assert(ev[i as int].0 == es@[i as int].0@);
                    if same_text(es[i].0.as_str(), key) {
                        return Some(&es[i].1);
                    }
                    i = i + 1;
                }
                None
            },
            _ => None,
        }
    }

    /// This value as a string, if it is one.
    pub fn as_str(&self) -> (r: Option<&String>)
        ensures
            r matches Some(s) ==> self@ == JsonV::Str(s@),
            r is None ==> !(self@ is Str),
    {
        match self {
            Json::Str(s) => Some(s),
            _ => None,
        }
    }

    /// This value as a non-negative integer, if it is one.
    pub fn as_u64(&self) -> (r: Option<u64>)
        ensures
            r == spec_as_u64(Some(self@)),
    {
        match self {
            Json::Uint(u) => Some(*u),
            _ => None,
        }
    }

    /// This value as a signed integer, if it is an integer that fits.
    pub fn as_i64(&self) -> (r: Option<i64>)
        ensures
            r == spec_as_i64(Some(self@)),
    {
        match self {
            Json::Uint(u) => if *u <= 0x7fff_ffff_ffff_ffffu64 {
                Some(*u as i64)
            } else {
                None
            },
            Json::Int(i) => Some(*i),
            _ => None,
        }
    }

    /// The string at `key`, or the empty string when it is absent or not a string.
    pub fn str_field(&self, key: &str) -> (s: String)
        ensures
            s@ == spec_str_field(self@, key@),
    {
        match self.get(key) {
            Some(v) => match v.as_str() {
                Some(s) => s.clone(),
                None => String::new(),
            },
            None => String::new(),
        }
    }

    /// The non-negative integer at `key`, if there is one.
    pub fn u64_field(&self, key: &str) -> (r: Option<u64>)
        ensures
            r == spec_as_u64(spec_get(self@, key@)),
    {
        match self.get(key) {
            Some(v) => v.as_u64(),
            None => None,
        }
    }

    /// A copy of this value.
    pub fn duplicate(&self) -> (r: Json)
        ensures
            r@ == self@,
        decreases self,
    {
        match self {
            Json::Null => Json::Null,
            Json::Bool(b) => Json::Bool(*b),
            Json::Uint(u) => Json::Uint(*u),
            Json::Int(i) => Json::Int(*i),
            Json::Float(f) => Json::Float(*f),
            Json::Str(s) => Json::Str(s.clone()),
            Json::Array(a) => {
                let mut out: Vec<Json> = Vec::new();
                let mut i: usize = 0;
                while i < a.len()
                    invariant
                        *self is Array,
                        self->Array_0 == *a,
                        i <= a@.len(),
                        out@.len() == i,
                        forall|k: int| 0 <= k < i ==> (#[trigger] out@[k])@ == a@[k]@,
                    decreases a@.len() - i,
                {
                    proof {
                        assert(decreases_to!(*self => self->Array_0@[i as int]));
                    }
                    out.push(a[i].duplicate());
                    i = i + 1;
                }
                let r = Json::Array(out);
                assert(r@ == self@) by {
                    if let JsonV::Array(x) = r@ {
                        if let JsonV::Array(y) = self@ {
                            assert(x =~= y);
                        }
                    }
                }
                r
            },
            Json::Object(es) => {
                let mut out: Vec<(String, Json)> = Vec::new();
                let mut i: usize = 0;
                while i < es.len()
                    invariant
                        *self is Object,
                        self->Object_0 == *es,
                        i <= es@.len(),
                        out@.len() == i,
                        forall|k: int| 0 <= k < i ==> (#[trigger] out@[k]).0@ == es@[k].0@,
                        forall|k: int| 0 <= k < i ==> (#[trigger] out@[k]).1@ == es@[k].1@,
                    decreases es@.len() - i,
                {
                    proof {
                        assert(decreases_to!(*self => self->Object_0@[i as int]));
                        assert(decreases_to!(self->Object_0@[i as int] => self->Object_0@[i as int].1));
                    }
                    let v = es[i].1.duplicate();
                    out.push((es[i].0.clone(), v));
                    i = i + 1;
                }
                let r = Json::Object(out);
                assert(r@ == self@) by {
                    if let JsonV::Object(x) = r@ {
                        if let JsonV::Object(y) = self@ {
                            assert(x =~= y);
                        }
                    }
                }
                r
            },
        }
    }
}

// ---------------------------------------------------------------- canonical

/// Where an entry named `key` goes in `es`, scanning back from `hi`: after every entry whose key
/// sorts at or before it, so entries with equal keys keep their order.
pub open spec fn spec_insert_pos(es: Seq<(Seq<char>, JsonV)>, key: Seq<char>, hi: int) -> int
    decreases hi,
{
    if hi <= 0 {
        0
    } else if seq_le(es[hi - 1].0, key) {
        hi
    } else {
        spec_insert_pos(es, key, hi - 1)
    }
}

pub open spec fn spec_insert_entry(es: Seq<(Seq<char>, JsonV)>, e: (Seq<char>, JsonV)) -> Seq<(Seq<char>, JsonV)> {
    es.insert(spec_insert_pos(es, e.0, es.len() as int), e)
}

/// Entries sorted by key, stably.
pub open spec fn spec_sort_entries(es: Seq<(Seq<char>, JsonV)>) -> Seq<(Seq<char>, JsonV)>
    decreases es.len(),
{
    if es.len() == 0 {
        es
    } else {
        spec_insert_entry(spec_sort_entries(es.drop_last()), es.last())
    }
}

/// A value with the keys of every object sorted, recursively. Arrays keep their order.
pub open spec fn spec_canonical(v: JsonV) -> JsonV
    decreases v,
{
    match v {
        JsonV::Array(a) => JsonV::Array(spec_canonical_items(a)),
        JsonV::Object(es) => JsonV::Object(spec_sort_entries(spec_canonical_entries(es))),
        _ => v,
    }
}

/// Every item made canonical, in place.
pub open spec fn spec_canonical_items(a: Seq<JsonV>) -> Seq<JsonV>
    decreases a,
{
    Seq::new(a.len(), |i: int| if 0 <= i < a.len() { spec_canonical(a[i]) } else { JsonV::Null })
}

/// Every value made canonical, keys and order untouched.
pub open spec fn spec_canonical_entries(es: Seq<(Seq<char>, JsonV)>) -> Seq<(Seq<char>, JsonV)>
    decreases es,
{
    Seq::new(
        es.len(),
        |i: int|
            if 0 <= i < es.len() {
                (es[i].0, spec_canonical(es[i].1))
            } else {
                (Seq::empty(), JsonV::Null)
            },
    )
}

pub proof fn lemma_insert_pos_bounds(es: Seq<(Seq<char>, JsonV)>, key: Seq<char>, hi: int)
    requires
        0 <= hi <= es.len(),
    ensures
        0 <= spec_insert_pos(es, key, hi) <= hi,
    decreases hi,
{
    if hi > 0 && !seq_le(es[hi - 1].0, key) {
        lemma_insert_pos_bounds(es, key, hi - 1);
    }
}

/// Inserts `e` into `sorted` where [`spec_insert_entry`] puts it.
fn insert_entry(sorted: &mut Vec<(String, Json)>, e: (String, Json))
    ensures
        entries_view(final(sorted)@) == spec_insert_entry(entries_view(old(sorted)@), (e.0@, e.1@)),
{
    let ghost ev = entries_view(sorted@);
    let mut pos = sorted.len();
    while pos > 0 && !text_le(sorted[pos - 1].0.as_str(), e.0.as_str())
        invariant
            0 <= pos <= sorted@.len(),
            ev == entries_view(sorted@),
            spec_insert_pos(ev, e.0@, pos as int) == spec_insert_pos(ev, e.0@, ev.len() as int),
        decreases pos,
    {
        pos = pos - 1;
    }
    proof {
        lemma_insert_pos_bounds(ev, e.0@, ev.len() as int);
    }
    let ghost k = e.0@;
    let ghost v = e.1@;
    sorted.insert(pos, e);
    assert(entries_view(sorted@) =~= ev.insert(pos as int, (k, v)));
}

/// Object entries sorted by key, stably.
fn sort_entries(es: Vec<(String, Json)>) -> (r: Vec<(String, Json)>)
    ensures
        entries_view(r@) == spec_sort_entries(entries_view(es@)),
{
    let ghost original = entries_view(es@);
    let mut sorted: Vec<(String, Json)> = Vec::new();
    let mut rest = es;
    proof {
        assert(entries_view(sorted@) =~= spec_sort_entries(original.take(0)));
        assert(entries_view(rest@) =~= original.skip(0));
    }
    let n = rest.len();
    let mut i: usize = 0;
    while i < n
        invariant
            n == original.len(),
            i <= n,
            entries_view(rest@) == original.skip(i as int),
            rest@.len() == n - i,
            entries_view(sorted@) == spec_sort_entries(original.take(i as int)),
        decreases n - i,
    {
        let ghost before = rest@;
        let e = rest.remove(0);
        proof {
            assert((e.0@, e.1@) == entries_view(before)[0]);
            assert forall|k: int| 0 <= k < rest@.len() implies #[trigger] entries_view(rest@)[k] == original.skip(i + 1)[k] by {
                assert(rest@[k] == before[k + 1]);
                assert(entries_view(before)[k + 1] == original.skip(i as int)[k + 1]);
            }
            assert(entries_view(rest@) =~= original.skip(i + 1));
            assert(original.take(i + 1).drop_last() =~= original.take(i as int));
            assert(original.take(i + 1).last() == original[i as int]);
        }
        insert_entry(&mut sorted, e);
        i = i + 1;
    }
    proof {
        assert(original.take(n as int) =~= original);
    }
    sorted
}

impl Json {
    /// The same value with the keys of every object sorted, recursively.
    ///
    /// A body reaches the harness in whatever order its runtime wrote it, and runtimes disagree.
    /// Order carries no meaning in JSON, so two nodes that behaved identically must not journal
    /// differently: the journal is compared, and it is written in this one form.
    pub fn canonical(&self) -> (r: Json)
        ensures
            r@ == spec_canonical(self@),
        decreases self,
    {
        match self {
            Json::Array(a) => {
                let mut out: Vec<Json> = Vec::new();
                let mut i: usize = 0;
                while i < a.len()
                    invariant
                        *self is Array,
                        self->Array_0 == *a,
                        i <= a@.len(),
                        out@.len() == i,
                        forall|k: int| 0 <= k < i ==> (#[trigger] out@[k])@ == spec_canonical(a@[k]@),
                    decreases a@.len() - i,
                {
                    proof {
                        assert(decreases_to!(*self => self->Array_0@[i as int]));
                    }
                    out.push(a[i].canonical());
                    i = i + 1;
                }
                let r = Json::Array(out);
                assert(r@ == spec_canonical(self@)) by {
                    if let JsonV::Array(x) = r@ {
                        if let JsonV::Array(y) = self@ {
                            if let JsonV::Array(z) = spec_canonical(self@) {
                                assert(x =~= z);
                            }
                        }
                    }
                }
                r
            },
            Json::Object(es) => {
                let mut out: Vec<(String, Json)> = Vec::new();
                let mut i: usize = 0;
                while i < es.len()
                    invariant
                        *self is Object,
                        self->Object_0 == *es,
                        i <= es@.len(),
                        out@.len() == i,
                        forall|k: int| 0 <= k < i ==> (#[trigger] out@[k]).0@ == es@[k].0@,
                        forall|k: int| 0 <= k < i ==> (#[trigger] out@[k]).1@ == spec_canonical(es@[k].1@),
                    decreases es@.len() - i,
                {
                    proof {
                        assert(decreases_to!(*self => self->Object_0@[i as int]));
                        assert(decreases_to!(self->Object_0@[i as int] => self->Object_0@[i as int].1));
                    }
                    let v = es[i].1.canonical();
                    out.push((es[i].0.clone(), v));
                    i = i + 1;
                }
                let ghost mapped = entries_view(out@);
                let sorted = sort_entries(out);
                let r = Json::Object(sorted);
                assert(r@ == spec_canonical(self@)) by {
                    if let JsonV::Object(y) = self@ {
                        let inner = spec_canonical_entries(y);
                        assert forall|k: int| 0 <= k < y.len() implies #[trigger] mapped[k] == inner[k] by {
                            assert(y[k] == (es@[k].0@, es@[k].1@));
                        }
                        assert(mapped =~= inner);
                        if let JsonV::Object(x) = r@ {
                            assert(x =~= entries_view(sorted@));
                        }
                        assert(spec_canonical(self@) == JsonV::Object(spec_sort_entries(inner)));
                        assert(r@ == JsonV::Object(entries_view(sorted@)));
                    }
                }
                r
            },
            Json::Null => Json::Null,
            Json::Bool(b) => Json::Bool(*b),
            Json::Uint(u) => Json::Uint(*u),
            Json::Int(i) => Json::Int(*i),
            Json::Float(f) => Json::Float(*f),
            Json::Str(s) => Json::Str(s.clone()),
        }
    }
}

// ------------------------------------------------------- what canonical means

/// Keys in order: each one sorts at or before the next.
pub open spec fn entries_sorted(es: Seq<(Seq<char>, JsonV)>) -> bool {
    forall|a: int, b: int| 0 <= a < b < es.len() ==> seq_le(#[trigger] es[a].0, #[trigger] es[b].0)
}

pub open spec fn all_true(s: Seq<bool>) -> bool {
    forall|i: int| 0 <= i < s.len() ==> #[trigger] s[i]
}

/// Every object in `v`, at any depth, has its keys in order.
pub open spec fn keys_in_order(v: JsonV) -> bool
    decreases v,
{
    match v {
        JsonV::Array(a) => all_true(Seq::new(a.len(), |i: int| if 0 <= i < a.len() { keys_in_order(a[i]) } else { true })),
        JsonV::Object(es) => entries_sorted(es) && all_true(
            Seq::new(es.len(), |i: int| if 0 <= i < es.len() { keys_in_order(es[i].1) } else { true }),
        ),
        _ => true,
    }
}

proof fn lemma_insert_pos_facts(es: Seq<(Seq<char>, JsonV)>, key: Seq<char>, hi: int)
    requires
        0 <= hi <= es.len(),
    ensures
        0 <= spec_insert_pos(es, key, hi) <= hi,
        spec_insert_pos(es, key, hi) > 0 ==> seq_le(es[spec_insert_pos(es, key, hi) - 1].0, key),
        forall|j: int| spec_insert_pos(es, key, hi) <= j < hi ==> !seq_le(#[trigger] es[j].0, key),
    decreases hi,
{
    if hi > 0 && !seq_le(es[hi - 1].0, key) {
        lemma_insert_pos_facts(es, key, hi - 1);
    }
}

proof fn lemma_insert_sorted(es: Seq<(Seq<char>, JsonV)>, e: (Seq<char>, JsonV))
    requires
        entries_sorted(es),
    ensures
        entries_sorted(spec_insert_entry(es, e)),
{
    let p = spec_insert_pos(es, e.0, es.len() as int);
    lemma_insert_pos_facts(es, e.0, es.len() as int);
    let r = spec_insert_entry(es, e);
    assert forall|a: int, b: int| 0 <= a < b < r.len() implies seq_le(#[trigger] r[a].0, #[trigger] r[b].0) by {
        if b < p {
            assert(r[a] == es[a] && r[b] == es[b]);
        } else if b == p {
            assert(r[b] == e);
            assert(r[a] == es[a]);
            if a < p - 1 {
                assert(seq_le(es[a].0, es[p - 1].0));
                lemma_seq_le_transitive(es[a].0, es[p - 1].0, e.0);
            }
        } else if a == p {
            assert(r[a] == e);
            assert(r[b] == es[b - 1]);
            lemma_seq_le_total(es[b - 1].0, e.0);
        } else if a < p {
            assert(r[a] == es[a] && r[b] == es[b - 1]);
        } else {
            assert(r[a] == es[a - 1] && r[b] == es[b - 1]);
        }
    }
}

/// Sorting puts the keys in order.
proof fn lemma_sort_sorted(es: Seq<(Seq<char>, JsonV)>)
    ensures
        entries_sorted(spec_sort_entries(es)),
        spec_sort_entries(es).len() == es.len(),
        forall|i: int| 0 <= i < es.len() ==> exists|j: int| 0 <= j < es.len() && #[trigger] spec_sort_entries(es)[i] == es[j],
    decreases es.len(),
{
    if es.len() > 0 {
        let rest = es.drop_last();
        lemma_sort_sorted(rest);
        let s = spec_sort_entries(rest);
        lemma_insert_sorted(s, es.last());
        let p = spec_insert_pos(s, es.last().0, s.len() as int);
        lemma_insert_pos_bounds(s, es.last().0, s.len() as int);
        let r = spec_sort_entries(es);
        assert forall|i: int| 0 <= i < es.len() implies exists|j: int| 0 <= j < es.len() && #[trigger] r[i] == es[j] by {
            if i == p {
                assert(r[i] == es[es.len() - 1]);
            } else {
                let k = if i < p { i } else { i - 1 };
                assert(r[i] == s[k]);
                let j = choose|j: int| 0 <= j < rest.len() && s[k] == rest[j];
                assert(rest[j] == es[j]);
            }
        }
    }
}

/// Sorting entries already in order changes nothing.
proof fn lemma_sort_of_sorted(es: Seq<(Seq<char>, JsonV)>)
    requires
        entries_sorted(es),
    ensures
        spec_sort_entries(es) == es,
    decreases es.len(),
{
    if es.len() > 0 {
        let rest = es.drop_last();
        assert(entries_sorted(rest)) by {
            assert forall|a: int, b: int| 0 <= a < b < rest.len() implies seq_le(#[trigger] rest[a].0, #[trigger] rest[b].0) by {
                assert(rest[a] == es[a] && rest[b] == es[b]);
            }
        }
        lemma_sort_of_sorted(rest);
        if rest.len() > 0 {
            assert(seq_le(es[rest.len() - 1].0, es[es.len() - 1].0));
            assert(rest[rest.len() - 1] == es[rest.len() - 1]);
        }
        assert(spec_insert_pos(rest, es.last().0, rest.len() as int) == rest.len());
        assert(rest.insert(rest.len() as int, es.last()) =~= es);
    }
}

/// A canonical value is in order all the way down: every object's keys are sorted.
pub proof fn lemma_canonical_keys_in_order(v: JsonV)
    ensures
        keys_in_order(spec_canonical(v)),
    decreases v,
{
    match v {
        JsonV::Array(a) => {
            let c = spec_canonical_items(a);
            assert forall|i: int| 0 <= i < c.len() implies keys_in_order(#[trigger] c[i]) by {
                assert(decreases_to!(v => a[i]));
                lemma_canonical_keys_in_order(a[i]);
            }
            assert(spec_canonical(v) == JsonV::Array(c));
        },
        JsonV::Object(es) => {
            let x = spec_canonical_entries(es);
            lemma_sort_sorted(x);
            let s = spec_sort_entries(x);
            assert forall|i: int| 0 <= i < s.len() implies keys_in_order(#[trigger] s[i].1) by {
                let j = choose|j: int| 0 <= j < x.len() && s[i] == x[j];
                assert(decreases_to!(v => es[j].1));
                lemma_canonical_keys_in_order(es[j].1);
            }
            assert(spec_canonical(v) == JsonV::Object(s));
        },
        _ => {},
    }
}

/// Making a value canonical twice is making it canonical once.
pub proof fn lemma_canonical_idempotent(v: JsonV)
    ensures
        spec_canonical(spec_canonical(v)) == spec_canonical(v),
    decreases v,
{
    match v {
        JsonV::Array(a) => {
            let c = spec_canonical_items(a);
            let cc = spec_canonical_items(c);
            assert forall|i: int| 0 <= i < c.len() implies #[trigger] cc[i] == c[i] by {
                assert(decreases_to!(v => a[i]));
                lemma_canonical_idempotent(a[i]);
            }
            assert(cc =~= c);
        },
        JsonV::Object(es) => {
            let x = spec_canonical_entries(es);
            lemma_sort_sorted(x);
            let s = spec_sort_entries(x);
            let cs = spec_canonical_entries(s);
            assert forall|i: int| 0 <= i < s.len() implies #[trigger] cs[i] == s[i] by {
                let j = choose|j: int| 0 <= j < x.len() && s[i] == x[j];
                assert(decreases_to!(v => es[j].1));
                lemma_canonical_idempotent(es[j].1);
            }
            assert(cs =~= s);
            lemma_sort_of_sorted(s);
        },
        _ => {},
    }
}

/// Making a value canonical changes nothing but where object keys stand: a scalar is left as
/// it is; an array keeps its length and its order, each item made canonical; an object keeps
/// every entry, as many times as it occurs, each value made canonical, now listed by key.
pub proof fn lemma_canonical_keeps_content(v: JsonV)
    ensures
        !(v is Array) && !(v is Object) ==> spec_canonical(v) == v,
        v is Array ==> spec_canonical(v) is Array
            && spec_canonical(v)->Array_0.len() == v->Array_0.len()
            && forall|i: int| 0 <= i < v->Array_0.len() ==>
                #[trigger] spec_canonical(v)->Array_0[i] == spec_canonical(v->Array_0[i]),
        v is Object ==> spec_canonical(v) is Object
            && spec_canonical(v)->Object_0.len() == v->Object_0.len()
            && entries_sorted(spec_canonical(v)->Object_0)
            && spec_canonical(v)->Object_0.to_multiset() == spec_canonical_entries(v->Object_0).to_multiset(),
{
    match v {
        JsonV::Object(es) => {
            let x = spec_canonical_entries(es);
            lemma_sort_sorted(x);
            lemma_sort_multiset(x);
        },
        _ => {},
    }
}

/// No key occurs twice, as in an object read from text.
pub open spec fn distinct_keys(es: Seq<(Seq<char>, JsonV)>) -> bool {
    forall|a: int, b: int| 0 <= a < b < es.len() ==> #[trigger] es[a].0 != #[trigger] es[b].0
}

/// `order` lists each of `0..n` once.
pub open spec fn reorders(order: Seq<int>, n: nat) -> bool {
    &&& order.len() == n
    &&& forall|j: int| 0 <= j < n ==> 0 <= #[trigger] order[j] < n
    &&& forall|a: int, b: int| 0 <= a < b < n ==> #[trigger] order[a] != #[trigger] order[b]
}

pub proof fn lemma_reordered_multiset<A>(s1: Seq<A>, s2: Seq<A>, order: Seq<int>)
    requires
        reorders(order, s1.len()),
        s2.len() == s1.len(),
        forall|i: int| 0 <= i < s2.len() ==> #[trigger] s2[i] == s1[order[i]],
    ensures
        s2.to_multiset() == s1.to_multiset(),
    decreases s1.len(),
{
    if s1.len() > 0 {
        let n = (s1.len() - 1) as int;
        let k = order[n];
        let s1r = s1.remove(k);
        let s2r = s2.drop_last();
        let o2 = Seq::new(n as nat, |i: int| if order[i] < k { order[i] } else { order[i] - 1 });
        assert forall|j: int| 0 <= j < n implies 0 <= #[trigger] o2[j] < n by {
            assert(order[j] != order[n]);
        }
        assert forall|a: int, b: int| 0 <= a < b < n implies #[trigger] o2[a] != #[trigger] o2[b] by {
            assert(order[a] != order[b]);
            assert(order[a] != k && order[b] != k) by {
                assert(order[a] != order[n]);
                assert(order[b] != order[n]);
            }
        }
        assert forall|i: int| 0 <= i < s2r.len() implies #[trigger] s2r[i] == s1r[o2[i]] by {
            assert(order[i] != order[n]);
            assert(s2r[i] == s2[i]);
        }
        lemma_reordered_multiset(s1r, s2r, o2);
        to_multiset_build(s2r, s2.last());
        assert(s2r.push(s2.last()) =~= s2);
        to_multiset_remove(s1, k);
        to_multiset_contains(s1, s1[k]);
        assert(s2.last() == s1[k]);
        assert(s1.to_multiset() =~= s1.to_multiset().remove(s1[k]).insert(s1[k]));
        assert(s2.to_multiset() == s2r.to_multiset().insert(s2.last()));
        assert(s1r.to_multiset() == s1.to_multiset().remove(s1[k]));
    } else {
        assert(s1 =~= s2);
    }
}

/// Sorting keeps every entry, as many times as it occurs.
proof fn lemma_sort_multiset(es: Seq<(Seq<char>, JsonV)>)
    ensures
        spec_sort_entries(es).to_multiset() == es.to_multiset(),
    decreases es.len(),
{
    if es.len() > 0 {
        let rest = es.drop_last();
        lemma_sort_multiset(rest);
        let s = spec_sort_entries(rest);
        let p = spec_insert_pos(s, es.last().0, s.len() as int);
        lemma_sort_sorted(rest);
        lemma_insert_pos_bounds(s, es.last().0, s.len() as int);
        to_multiset_insert(s, p, es.last());
        to_multiset_build(rest, es.last());
        assert(rest.push(es.last()) =~= es);
    }
}

/// Entries whose keys decide them: two with one key are the same entry.
pub open spec fn keyed(s: Seq<(Seq<char>, JsonV)>) -> bool {
    forall|a: int, b: int| 0 <= a < s.len() && 0 <= b < s.len() && #[trigger] s[a].0 == #[trigger] s[b].0 ==> s[a] == s[b]
}

/// Two sequences in key order holding the same entries, each key deciding its entry, are one.
pub proof fn lemma_sorted_unique(s: Seq<(Seq<char>, JsonV)>, t: Seq<(Seq<char>, JsonV)>)
    requires
        entries_sorted(s),
        entries_sorted(t),
        keyed(s),
        s.to_multiset() == t.to_multiset(),
    ensures
        s == t,
    decreases s.len(),
{
    to_multiset_len(s);
    to_multiset_len(t);
    if s.len() > 0 {
        to_multiset_contains(t, s[0]);
        to_multiset_contains(s, s[0]);
        to_multiset_contains(s, t[0]);
        to_multiset_contains(t, t[0]);
        let j = choose|j: int| 0 <= j < t.len() && t[j] == s[0];
        let k = choose|k: int| 0 <= k < s.len() && s[k] == t[0];
        if j > 0 {
            assert(seq_le(t[0].0, t[j].0));
        } else {
            lemma_seq_le_reflexive(t[0].0);
        }
        if k > 0 {
            assert(seq_le(s[0].0, s[k].0));
        } else {
            lemma_seq_le_reflexive(s[0].0);
        }
        lemma_seq_le_antisymmetric(s[0].0, t[0].0);
        assert(s[0] == s[k]);
        let s1 = s.drop_first();
        let t1 = t.drop_first();
        to_multiset_remove(s, 0);
        to_multiset_remove(t, 0);
        assert(s.remove(0) =~= s1);
        assert(t.remove(0) =~= t1);
        assert(entries_sorted(s1)) by {
            assert forall|a: int, b: int| 0 <= a < b < s1.len() implies seq_le(#[trigger] s1[a].0, #[trigger] s1[b].0) by {
                assert(s1[a] == s[a + 1] && s1[b] == s[b + 1]);
            }
        }
        assert(entries_sorted(t1)) by {
            assert forall|a: int, b: int| 0 <= a < b < t1.len() implies seq_le(#[trigger] t1[a].0, #[trigger] t1[b].0) by {
                assert(t1[a] == t[a + 1] && t1[b] == t[b + 1]);
            }
        }
        assert(keyed(s1)) by {
            assert forall|a: int, b: int| 0 <= a < s1.len() && 0 <= b < s1.len() && #[trigger] s1[a].0 == #[trigger] s1[b].0 implies s1[a] == s1[b] by {
                assert(s1[a] == s[a + 1] && s1[b] == s[b + 1]);
            }
        }
        lemma_sorted_unique(s1, t1);
        assert(s =~= seq![s[0]] + s1);
        assert(t =~= seq![t[0]] + t1);
    }
}

/// Entries listed in another order, no key twice, sort to the same sequence.
proof fn lemma_sort_reordered(x1: Seq<(Seq<char>, JsonV)>, x2: Seq<(Seq<char>, JsonV)>, order: Seq<int>)
    requires
        distinct_keys(x1),
        reorders(order, x1.len()),
        x2.len() == x1.len(),
        forall|i: int| 0 <= i < x2.len() ==> #[trigger] x2[i] == x1[order[i]],
    ensures
        spec_sort_entries(x1) == spec_sort_entries(x2),
{
    lemma_reordered_multiset(x1, x2, order);
    lemma_sort_multiset(x1);
    lemma_sort_multiset(x2);
    lemma_sort_sorted(x1);
    lemma_sort_sorted(x2);
    let s1 = spec_sort_entries(x1);
    let s2 = spec_sort_entries(x2);
    assert(keyed(s1)) by {
        assert forall|a: int, b: int| 0 <= a < s1.len() && 0 <= b < s1.len() && #[trigger] s1[a].0 == #[trigger] s1[b].0 implies s1[a] == s1[b] by {
            let i = choose|j: int| 0 <= j < x1.len() && s1[a] == x1[j];
            let k = choose|j: int| 0 <= j < x1.len() && s1[b] == x1[j];
            if i != k {
                if i < k {
                    assert(x1[i].0 != x1[k].0);
                } else {
                    assert(x1[k].0 != x1[i].0);
                }
            }
        }
    }
    lemma_sorted_unique(s1, s2);
}

/// Values made canonical keep their keys, so keys distinct before are distinct after.
proof fn lemma_canonical_entries_distinct(es: Seq<(Seq<char>, JsonV)>)
    requires
        distinct_keys(es),
    ensures
        distinct_keys(spec_canonical_entries(es)),
{
    let x = spec_canonical_entries(es);
    assert forall|a: int, b: int| 0 <= a < b < x.len() implies #[trigger] x[a].0 != #[trigger] x[b].0 by {
        assert(x[a].0 == es[a].0 && x[b].0 == es[b].0);
    }
}

/// The order of an object's entries does not show in its canonical form: two objects holding
/// the same entries, with no key twice, in any two orders, are made canonical alike.
pub proof fn lemma_canonical_ignores_entry_order(es: Seq<(Seq<char>, JsonV)>, order: Seq<int>)
    requires
        distinct_keys(es),
        reorders(order, es.len()),
    ensures
        spec_canonical(JsonV::Object(Seq::new(es.len(), |i: int| es[order[i]])))
            == spec_canonical(JsonV::Object(es)),
{
    let es2 = Seq::new(es.len(), |i: int| es[order[i]]);
    let x1 = spec_canonical_entries(es);
    let x2 = spec_canonical_entries(es2);
    assert forall|i: int| 0 <= i < x2.len() implies #[trigger] x2[i] == x1[order[i]] by {}
    lemma_canonical_entries_distinct(es);
    lemma_sort_reordered(x1, x2, order);
}

/// Where each sorted entry came from: sorting lists the entries in some order, each once.
proof fn lemma_sort_order(es: Seq<(Seq<char>, JsonV)>) -> (o: Seq<int>)
    ensures
        reorders(o, es.len()),
        spec_sort_entries(es).len() == es.len(),
        forall|i: int| 0 <= i < es.len() ==> #[trigger] spec_sort_entries(es)[i] == es[o[i]],
    decreases es.len(),
{
    if es.len() == 0 {
        Seq::empty()
    } else {
        let n = es.len() - 1;
        let rest = es.drop_last();
        let o1 = lemma_sort_order(rest);
        let srt = spec_sort_entries(rest);
        let p = spec_insert_pos(srt, es.last().0, srt.len() as int);
        lemma_insert_pos_bounds(srt, es.last().0, srt.len() as int);
        let o = o1.insert(p, n);
        let r = spec_sort_entries(es);
        assert(r == srt.insert(p, es.last()));
        assert forall|i: int| 0 <= i < es.len() implies #[trigger] r[i] == es[o[i]] by {
            if i < p {
                assert(r[i] == srt[i] && o[i] == o1[i]);
                assert(rest[o1[i]] == es[o1[i]]);
            } else if i > p {
                assert(r[i] == srt[i - 1] && o[i] == o1[i - 1]);
                assert(rest[o1[i - 1]] == es[o1[i - 1]]);
            }
        }
        assert forall|j: int| 0 <= j < es.len() implies 0 <= #[trigger] o[j] < es.len() by {
            if j < p {
                assert(o[j] == o1[j]);
            } else if j > p {
                assert(o[j] == o1[j - 1]);
            }
        }
        assert forall|a: int, b: int| 0 <= a < b < es.len() implies #[trigger] o[a] != #[trigger] o[b] by {
            if a < p && b < p {
                assert(o[a] == o1[a] && o[b] == o1[b]);
            } else if a < p && b == p {
                assert(o[a] == o1[a]);
            } else if a < p {
                assert(o[a] == o1[a] && o[b] == o1[b - 1]);
            } else if a == p {
                assert(o[b] == o1[b - 1]);
            } else {
                assert(o[a] == o1[a - 1] && o[b] == o1[b - 1]);
            }
        }
        o
    }
}

/// Where an entry named `key` is found: the first one, or nowhere when none is named so.
proof fn lemma_find_first(es: Seq<(Seq<char>, JsonV)>, key: Seq<char>, from: int)
    requires
        0 <= from <= es.len(),
    ensures
        from <= spec_find(es, key, from) <= es.len(),
        spec_find(es, key, from) < es.len() ==> es[spec_find(es, key, from)].0 == key,
        forall|j: int| from <= j < spec_find(es, key, from) ==> es[j].0 != key,
    decreases es.len() - from,
{
    if from < es.len() && es[from].0 != key {
        lemma_find_first(es, key, from + 1);
    }
}

/// The value under a key that names one entry only, if any.
proof fn lemma_find_unique(es: Seq<(Seq<char>, JsonV)>, key: Seq<char>, j: int)
    requires
        distinct_keys(es),
        0 <= j < es.len(),
        es[j].0 == key,
    ensures
        spec_find(es, key, 0) == j,
{
    lemma_find_first(es, key, 0);
    let f = spec_find(es, key, 0);
    if f < j {
        assert(es[f].0 != es[j].0);
    }
}

/// A top-level field reads the same in a value and in its canonical form, when the value names
/// each key once.
pub proof fn lemma_canonical_field(v: JsonV, key: Seq<char>)
    requires
        v matches JsonV::Object(es) ==> distinct_keys(es),
    ensures
        spec_str_field(spec_canonical(v), key) == spec_str_field(v, key),
{
    if let JsonV::Object(es) = v {
        let x = spec_canonical_entries(es);
        let o = lemma_sort_order(x);
        let s = spec_sort_entries(x);
        lemma_canonical_entries_distinct(es);
        assert(distinct_keys(s)) by {
            assert forall|a: int, b: int| 0 <= a < b < s.len() implies #[trigger] s[a].0 != #[trigger] s[b].0 by {
                assert(s[a] == x[o[a]] && s[b] == x[o[b]]);
                assert(o[a] != o[b]);
                if o[a] < o[b] {
                    assert(x[o[a]].0 != x[o[b]].0);
                } else {
                    assert(x[o[b]].0 != x[o[a]].0);
                }
            }
        }
        lemma_find_first(es, key, 0);
        lemma_find_first(s, key, 0);
        let fe = spec_find(es, key, 0);
        let fs = spec_find(s, key, 0);
        if fe < es.len() {
            lemma_sort_multiset(x);
            to_multiset_contains(x, x[fe]);
            to_multiset_contains(s, x[fe]);
            let i = choose|i: int| 0 <= i < s.len() && s[i] == x[fe];
            lemma_find_unique(s, key, i);
            assert(s[fs].1 == spec_canonical(es[fe].1));
        } else if fs < s.len() {
            assert(s[fs] == x[o[fs]]);
            assert(es[o[fs]].0 == key);
            assert(false);
        }
    }
}

/// Every object in `v`, at any depth, names each key once, as every value read from text does.
pub open spec fn keys_distinct_throughout(v: JsonV) -> bool
    decreases v,
{
    match v {
        JsonV::Array(a) => forall|i: int| 0 <= i < a.len() ==> keys_distinct_throughout(#[trigger] a[i]),
        JsonV::Object(es) => distinct_keys(es) && forall|i: int| 0 <= i < es.len() ==> keys_distinct_throughout(#[trigger] es[i].1),
        _ => true,
    }
}

/// `a` and `b` are the same JSON value: equal scalars; arrays of one length, item by item the
/// same; objects naming the same keys, each once, with the same values, in whatever order.
pub open spec fn same_json(a: JsonV, b: JsonV) -> bool
    decreases a,
{
    match a {
        JsonV::Array(x) => match b {
            JsonV::Array(y) => x.len() == y.len() && forall|i: int| 0 <= i < x.len() ==> same_json(#[trigger] x[i], y[i]),
            _ => false,
        },
        JsonV::Object(x) => match b {
            JsonV::Object(y) => {
                &&& distinct_keys(x)
                &&& y.len() == x.len()
                &&& exists|order: Seq<int>| #[trigger] reorders(order, x.len()) && forall|i: int| 0 <= i < y.len() ==>
                    0 <= order[i] < x.len() && (#[trigger] y[i]).0 == x[order[i]].0 && same_json(x[order[i]].1, y[i].1)
            },
            _ => false,
        },
        _ => a == b,
    }
}

/// A canonical value is the value it was made from, as JSON: the same scalars, the same arrays in
/// the same order, the same keys with the same values, only listed by key.
pub proof fn lemma_canonical_is_the_same_json(v: JsonV)
    requires
        keys_distinct_throughout(v),
    ensures
        same_json(v, spec_canonical(v)),
    decreases v,
{
    match v {
        JsonV::Array(a) => {
            let c = spec_canonical_items(a);
            assert forall|i: int| 0 <= i < a.len() implies same_json(#[trigger] a[i], c[i]) by {
                assert(decreases_to!(v => a[i]));
                lemma_canonical_is_the_same_json(a[i]);
            }
        },
        JsonV::Object(es) => {
            let x = spec_canonical_entries(es);
            let o = lemma_sort_order(x);
            let s = spec_sort_entries(x);
            assert forall|i: int| 0 <= i < s.len() implies
                0 <= o[i] < es.len() && (#[trigger] s[i]).0 == es[o[i]].0 && same_json(es[o[i]].1, s[i].1) by {
                assert(s[i] == x[o[i]]);
                assert(decreases_to!(v => es[o[i]].1));
                lemma_canonical_is_the_same_json(es[o[i]].1);
            }
            assert(reorders(o, es.len()));
        },
        _ => {},
    }
}

/// Two values that are the same JSON have one canonical form, so a value reformatted, its keys
/// reordered at any depth, is written the same.
pub proof fn lemma_same_json_same_canonical(a: JsonV, b: JsonV)
    requires
        same_json(a, b),
    ensures
        spec_canonical(a) == spec_canonical(b),
    decreases a,
{
    match a {
        JsonV::Array(x) => {
            if let JsonV::Array(y) = b {
                let cx = spec_canonical_items(x);
                let cy = spec_canonical_items(y);
                assert forall|i: int| 0 <= i < x.len() implies #[trigger] cx[i] == cy[i] by {
                    assert(decreases_to!(a => x[i]));
                    lemma_same_json_same_canonical(x[i], y[i]);
                }
                assert(cx =~= cy);
            }
        },
        JsonV::Object(x) => {
            if let JsonV::Object(y) = b {
                let o = choose|order: Seq<int>| #[trigger] reorders(order, x.len()) && forall|i: int| 0 <= i < y.len() ==>
                    0 <= order[i] < x.len() && (#[trigger] y[i]).0 == x[order[i]].0 && same_json(x[order[i]].1, y[i].1);
                let x1 = spec_canonical_entries(x);
                let x2 = spec_canonical_entries(y);
                assert forall|i: int| 0 <= i < x2.len() implies #[trigger] x2[i] == x1[o[i]] by {
                    assert(y[i].0 == x[o[i]].0);
                    assert(decreases_to!(a => x[o[i]].1));
                    lemma_same_json_same_canonical(x[o[i]].1, y[i].1);
                }
                lemma_canonical_entries_distinct(x);
                lemma_sort_reordered(x1, x2, o);
            }
        },
        _ => {},
    }
}

} // verus!
