//! Stimulus templates: `<i>` becomes the instance index, and `{"$rand": [lo, hi]}` an integer drawn
//! from the inclusive range.
//!
//! Keys are walked in sorted order, not document order: depth-first over the document would make
//! swapping two keys in a body repoint every seed, silently.

use vstd::prelude::*;
use crate::json::{Json, JsonV, spec_as_u64, entries_view, entries_sorted, distinct_keys, reorders, keyed, same_json,
    lemma_reordered_multiset, lemma_sorted_unique};
use crate::rng::Rng;
use crate::text::{seq_le, text_le, chars_of, push_char, push_str, decimal, spec_decimal, same_text,
    lemma_seq_le_total, lemma_seq_le_transitive};

verus! {

// ------------------------------------------------------------- substitution

/// `s` with every occurrence of `pat` replaced by `rep`, scanning left to right without overlap.
pub open spec fn spec_replace(s: Seq<char>, pat: Seq<char>, rep: Seq<char>) -> Seq<char>
    decreases s.len(),
{
    if s.len() == 0 {
        s
    } else if pat.len() > 0 && pat.len() <= s.len() && s.take(pat.len() as int) == pat {
        rep + spec_replace(s.skip(pat.len() as int), pat, rep)
    } else {
        seq![s[0]] + spec_replace(s.drop_first(), pat, rep)
    }
}

/// Whether `pat` occurs in `s` at `at`.
fn occurs_at(s: &Vec<char>, pat: &Vec<char>, at: usize) -> (r: bool)
    requires
        at <= s@.len(),
    ensures
        r == (pat@.len() <= s@.len() - at && s@.skip(at as int).take(pat@.len() as int) == pat@),
{
    if pat.len() > s.len() - at {
        return false;
    }
    let mut k: usize = 0;
    while k < pat.len()
        invariant
            at <= s@.len(),
            pat@.len() <= s@.len() - at,
            k <= pat@.len(),
            forall|j: int| 0 <= j < k ==> s@[at + j] == pat@[j],
        decreases pat@.len() - k,
    {
        assert(at + k < s.len());
        if s[at + k] != pat[k] {
            assert(s@.skip(at as int).take(pat@.len() as int)[k as int] != pat@[k as int]);
            return false;
        }
        k = k + 1;
    }
    assert(s@.skip(at as int).take(pat@.len() as int) =~= pat@);
    true
}

/// `s` with every occurrence of the non-empty `pat` replaced by `rep`.
pub fn replace_all(s: &str, pat: &str, rep: &str) -> (out: String)
    ensures
        out@ == spec_replace(s@, pat@, rep@),
{
    let cs = chars_of(s);
    let ps = chars_of(pat);
    let mut out = String::new();
    let mut i: usize = 0;
    proof {
        assert(s@.skip(0) =~= s@);
    }
    while i < cs.len()
        invariant
            cs@ == s@,
            ps@ == pat@,
            i <= cs@.len(),
            out@ + spec_replace(s@.skip(i as int), pat@, rep@) == spec_replace(s@, pat@, rep@),
        decreases cs@.len() - i,
    {
        let ghost rest = s@.skip(i as int);
        if ps.len() > 0 && occurs_at(&cs, &ps, i) {
            proof {
                assert(rest.take(pat@.len() as int) == pat@);
                assert(rest.skip(pat@.len() as int) =~= s@.skip(i + pat@.len()));
                assert(out@ + (rep@ + spec_replace(rest.skip(pat@.len() as int), pat@, rep@))
                    =~= (out@ + rep@) + spec_replace(s@.skip(i + pat@.len()), pat@, rep@));
            }
            push_str(&mut out, rep);
            i = i + ps.len();
        } else {
            proof {
                assert(rest.drop_first() =~= s@.skip(i + 1));
                assert(rest[0] == cs@[i as int]);
                assert(out@ + (seq![rest[0]] + spec_replace(rest.drop_first(), pat@, rep@))
                    =~= out@.push(cs@[i as int]) + spec_replace(s@.skip(i + 1), pat@, rep@));
            }
            push_char(&mut out, cs[i]);
            i = i + 1;
        }
    }
    proof {
        assert(s@.skip(i as int).len() == 0);
        assert(out@ + spec_replace(s@.skip(i as int), pat@, rep@) =~= out@);
    }
    out
}

// ------------------------------------------------------------------ $rand

/// The entries of an object that asks for a drawn integer: one entry, `$rand`, holding a pair.
pub open spec fn is_rand(es: Seq<(Seq<char>, JsonV)>) -> bool {
    &&& es.len() == 1
    &&& es[0].0 == seq!['$', 'r', 'a', 'n', 'd']
    &&& es[0].1 matches JsonV::Array(b) && b.len() == 2
}

pub open spec fn rand_lo(es: Seq<(Seq<char>, JsonV)>) -> u64 {
    match es[0].1 {
        JsonV::Array(b) => match spec_as_u64(Some(b[0])) {
            Some(x) => x,
            None => 0,
        },
        _ => 0,
    }
}

pub open spec fn rand_hi(es: Seq<(Seq<char>, JsonV)>) -> u64 {
    match es[0].1 {
        JsonV::Array(b) => match spec_as_u64(Some(b[1])) {
            Some(x) => x,
            None => rand_lo(es),
        },
        _ => 0,
    }
}

/// A template whose every `$rand` can be drawn without overflowing its inclusive upper end.
pub open spec fn template_ok(v: JsonV) -> bool
    decreases v,
{
    match v {
        JsonV::Object(es) => if is_rand(es) {
            rand_hi(es) <= rand_lo(es) || rand_hi(es) < u64::MAX
        } else {
            forall|k: int| 0 <= k < es.len() ==> template_ok(#[trigger] es[k].1)
        },
        JsonV::Array(a) => forall|k: int| 0 <= k < a.len() ==> template_ok(#[trigger] a[k]),
        _ => true,
    }
}

/// Where index `k` goes among the indices `o`, scanning back from `hi`: after every one whose key
/// sorts at or before its own, so equal keys keep their order.
pub open spec fn order_pos(o: Seq<int>, keys: Seq<Seq<char>>, k: int, hi: int) -> int
    decreases hi,
{
    if hi <= 0 {
        0
    } else if seq_le(keys[o[hi - 1]], keys[k]) {
        hi
    } else {
        order_pos(o, keys, k, hi - 1)
    }
}

/// The first `m` indices of `keys`, ordered by key, stably.
pub open spec fn key_order_spec(keys: Seq<Seq<char>>, m: nat) -> Seq<int>
    decreases m,
{
    if m == 0 {
        Seq::empty()
    } else {
        let o = key_order_spec(keys, (m - 1) as nat);
        o.insert(order_pos(o, keys, m - 1, o.len() as int), m - 1)
    }
}

pub proof fn lemma_order_pos_bounds(o: Seq<int>, keys: Seq<Seq<char>>, k: int, hi: int)
    requires
        0 <= hi <= o.len(),
    ensures
        0 <= order_pos(o, keys, k, hi) <= hi,
    decreases hi,
{
    if hi > 0 && !seq_le(keys[o[hi - 1]], keys[k]) {
        lemma_order_pos_bounds(o, keys, k, hi - 1);
    }
}

/// The order lists each index below the count once.
pub proof fn lemma_key_order_indices(keys: Seq<Seq<char>>, m: nat)
    ensures
        key_order_spec(keys, m).len() == m,
        forall|j: int| 0 <= j < m ==> 0 <= #[trigger] key_order_spec(keys, m)[j] < m,
        reorders(key_order_spec(keys, m), m),
    decreases m,
{
    if m > 0 {
        let o = key_order_spec(keys, (m - 1) as nat);
        lemma_key_order_indices(keys, (m - 1) as nat);
        let p = order_pos(o, keys, m - 1, o.len() as int);
        lemma_order_pos_bounds(o, keys, m - 1, o.len() as int);
        let r = o.insert(p, m - 1);
        assert forall|j: int| 0 <= j < m implies 0 <= #[trigger] r[j] < m by {
            if j < p {
                assert(r[j] == o[j]);
            } else if j > p {
                assert(r[j] == o[j - 1]);
            }
        }
        assert forall|a: int, b: int| 0 <= a < b < m implies #[trigger] r[a] != #[trigger] r[b] by {
            if a < p { assert(r[a] == o[a]); }
            if a > p { assert(r[a] == o[a - 1]); }
            if b < p { assert(r[b] == o[b]); }
            if b > p { assert(r[b] == o[b - 1]); }
        }
    }
}

proof fn lemma_order_pos_facts(o: Seq<int>, keys: Seq<Seq<char>>, k: int, hi: int)
    requires
        0 <= hi <= o.len(),
    ensures
        0 <= order_pos(o, keys, k, hi) <= hi,
        order_pos(o, keys, k, hi) > 0 ==> seq_le(keys[o[order_pos(o, keys, k, hi) - 1]], keys[k]),
        forall|j: int| order_pos(o, keys, k, hi) <= j < hi ==> !seq_le(keys[#[trigger] o[j]], keys[k]),
    decreases hi,
{
    if hi > 0 && !seq_le(keys[o[hi - 1]], keys[k]) {
        lemma_order_pos_facts(o, keys, k, hi - 1);
    }
}

/// The order lists the keys sorted.
pub proof fn lemma_key_order_sorted(keys: Seq<Seq<char>>, m: nat)
    requires
        m <= keys.len(),
    ensures
        forall|a: int, b: int| 0 <= a < b < m ==>
            seq_le(keys[#[trigger] key_order_spec(keys, m)[a]], keys[#[trigger] key_order_spec(keys, m)[b]]),
    decreases m,
{
    if m > 0 {
        let o = key_order_spec(keys, (m - 1) as nat);
        lemma_key_order_sorted(keys, (m - 1) as nat);
        lemma_key_order_indices(keys, (m - 1) as nat);
        let k = m - 1;
        let p = order_pos(o, keys, k, o.len() as int);
        lemma_order_pos_facts(o, keys, k, o.len() as int);
        let r = o.insert(p, k);
        assert forall|a: int, b: int| 0 <= a < b < m implies seq_le(keys[#[trigger] r[a]], keys[#[trigger] r[b]]) by {
            if b < p {
                assert(r[a] == o[a] && r[b] == o[b]);
            } else if b == p {
                assert(r[b] == k);
                assert(r[a] == o[a]);
                if a < p - 1 {
                    assert(seq_le(keys[o[a]], keys[o[p - 1]]));
                    lemma_seq_le_transitive(keys[o[a]], keys[o[p - 1]], keys[k]);
                }
            } else if a == p {
                assert(r[a] == k);
                assert(r[b] == o[b - 1]);
                lemma_seq_le_total(keys[o[b - 1]], keys[k]);
            } else if a < p {
                assert(r[a] == o[a] && r[b] == o[b - 1]);
            } else {
                assert(r[a] == o[a - 1] && r[b] == o[b - 1]);
            }
        }
    }
}

/// An object's entries in the order the render walks them.
pub open spec fn walked(es: Seq<(Seq<char>, JsonV)>) -> Seq<(Seq<char>, JsonV)> {
    let ord = key_order_spec(keys_in(es), es.len());
    Seq::new(es.len(), |k: int| es[ord[k]])
}

proof fn lemma_walked_facts(es: Seq<(Seq<char>, JsonV)>)
    requires
        distinct_keys(es),
    ensures
        entries_sorted(walked(es)),
        keyed(walked(es)),
        walked(es).to_multiset() == es.to_multiset(),
{
    let ord = key_order_spec(keys_in(es), es.len());
    let t = walked(es);
    lemma_key_order_indices(keys_in(es), es.len());
    lemma_key_order_sorted(keys_in(es), es.len());
    assert forall|a: int, b: int| 0 <= a < b < t.len() implies seq_le(#[trigger] t[a].0, #[trigger] t[b].0) by {
        assert(seq_le(keys_in(es)[ord[a]], keys_in(es)[ord[b]]));
    }
    assert forall|a: int, b: int| 0 <= a < t.len() && 0 <= b < t.len() && #[trigger] t[a].0 == #[trigger] t[b].0 implies t[a] == t[b] by {
        if ord[a] < ord[b] {
            assert(es[ord[a]].0 != es[ord[b]].0);
        } else if ord[b] < ord[a] {
            assert(es[ord[b]].0 != es[ord[a]].0);
        }
    }
    lemma_reordered_multiset(es, t, ord);
}

/// Rendering an object's entries looks only at them in the order walked.
proof fn lemma_entries_walked(es1: Seq<(Seq<char>, JsonV)>, ord1: Seq<int>, es2: Seq<(Seq<char>, JsonV)>, ord2: Seq<int>, i: nat, state: u64, m: nat)
    requires
        m <= ord1.len(),
        m <= ord2.len(),
        forall|k: int| 0 <= k < m ==> 0 <= #[trigger] ord1[k] < es1.len(),
        forall|k: int| 0 <= k < m ==> 0 <= #[trigger] ord2[k] < es2.len(),
        forall|k: int| 0 <= k < m ==> es1[#[trigger] ord1[k]] == es2[ord2[k]],
    ensures
        render_entries(es1, ord1, i, state, m) == render_entries(es2, ord2, i, state, m),
    decreases m,
{
    if m > 0 {
        lemma_entries_walked(es1, ord1, es2, ord2, i, state, (m - 1) as nat);
        assert(es1[ord1[m - 1]] == es2[ord2[m - 1]]);
    }
}

/// Keys reordered in a template change nothing: an object holding the same entries, no key
/// twice, in any order, renders to the same value and draws the same numbers.
pub proof fn lemma_render_ignores_entry_order(es: Seq<(Seq<char>, JsonV)>, order: Seq<int>, i: nat, state: u64)
    requires
        distinct_keys(es),
        reorders(order, es.len()),
    ensures
        spec_render(JsonV::Object(Seq::new(es.len(), |k: int| es[order[k]])), i, state)
            == spec_render(JsonV::Object(es), i, state),
{
    let es2 = Seq::new(es.len(), |k: int| es[order[k]]);
    if es.len() == 1 {
        assert(order[0] == 0);
        assert(es2 =~= es);
    } else {
        assert(distinct_keys(es2)) by {
            assert forall|a: int, b: int| 0 <= a < b < es2.len() implies #[trigger] es2[a].0 != #[trigger] es2[b].0 by {
                assert(order[a] != order[b]);
                if order[a] < order[b] {
                    assert(es[order[a]].0 != es[order[b]].0);
                } else {
                    assert(es[order[b]].0 != es[order[a]].0);
                }
            }
        }
        assert forall|k: int| 0 <= k < es2.len() implies #[trigger] es2[k] == es[order[k]] by {}
        lemma_reordered_multiset(es, es2, order);
        lemma_walked_facts(es);
        lemma_walked_facts(es2);
        lemma_sorted_unique(walked(es), walked(es2));
        let ord1 = key_order_spec(keys_in(es), es.len());
        let ord2 = key_order_spec(keys_in(es2), es2.len());
        lemma_key_order_indices(keys_in(es), es.len());
        lemma_key_order_indices(keys_in(es2), es2.len());
        assert forall|k: int| 0 <= k < es.len() implies es[#[trigger] ord1[k]] == es2[ord2[k]] by {
            assert(walked(es)[k] == walked(es2)[k]);
        }
        lemma_entries_walked(es, ord1, es2, ord2, i, state, es.len());
    }
}

/// The keys of an object with every value blanked out.
spec fn skeleton(es: Seq<(Seq<char>, JsonV)>) -> Seq<(Seq<char>, JsonV)> {
    Seq::new(es.len(), |k: int| (es[k].0, JsonV::Null))
}

/// Two objects that are the same JSON are walked key for key alike: the `k`-th entry walked in
/// one has the key, and the same JSON as value, of the `k`-th walked in the other.
proof fn lemma_walked_alike(x: Seq<(Seq<char>, JsonV)>, y: Seq<(Seq<char>, JsonV)>)
    requires
        same_json(JsonV::Object(x), JsonV::Object(y)),
    ensures
        ({
            let ord1 = key_order_spec(keys_in(x), x.len());
            let ord2 = key_order_spec(keys_in(y), y.len());
            &&& ord1.len() == x.len()
            &&& ord2.len() == y.len()
            &&& y.len() == x.len()
            &&& forall|k: int| 0 <= k < x.len() ==> 0 <= #[trigger] ord1[k] < x.len() && 0 <= ord2[k] < y.len()
                && x[ord1[k]].0 == y[ord2[k]].0 && same_json(x[ord1[k]].1, y[ord2[k]].1)
        }),
{
    let o = choose|order: Seq<int>| #[trigger] reorders(order, x.len()) && forall|i: int| 0 <= i < y.len() ==>
        0 <= order[i] < x.len() && (#[trigger] y[i]).0 == x[order[i]].0 && same_json(x[order[i]].1, y[i].1);
    let sx = skeleton(x);
    let sy = skeleton(y);
    assert(keys_in(sx) =~= keys_in(x));
    assert(keys_in(sy) =~= keys_in(y));
    let ord1 = key_order_spec(keys_in(x), x.len());
    let ord2 = key_order_spec(keys_in(y), y.len());
    lemma_key_order_indices(keys_in(x), x.len());
    lemma_key_order_indices(keys_in(y), y.len());
    assert(distinct_keys(sx)) by {
        assert forall|a: int, b: int| 0 <= a < b < sx.len() implies #[trigger] sx[a].0 != #[trigger] sx[b].0 by {
            assert(x[a].0 != x[b].0);
        }
    }
    assert forall|i: int| 0 <= i < sy.len() implies #[trigger] sy[i] == sx[o[i]] by {
        assert(y[i].0 == x[o[i]].0);
    }
    assert(distinct_keys(sy)) by {
        assert forall|a: int, b: int| 0 <= a < b < sy.len() implies #[trigger] sy[a].0 != #[trigger] sy[b].0 by {
            assert(sy[a] == sx[o[a]] && sy[b] == sx[o[b]]);
            assert(o[a] != o[b]);
            if o[a] < o[b] {
                assert(sx[o[a]].0 != sx[o[b]].0);
            } else {
                assert(sx[o[b]].0 != sx[o[a]].0);
            }
        }
    }
    lemma_reordered_multiset(sx, sy, o);
    lemma_walked_facts(sx);
    lemma_walked_facts(sy);
    lemma_sorted_unique(walked(sx), walked(sy));
    assert forall|k: int| 0 <= k < x.len() implies 0 <= #[trigger] ord1[k] < x.len() && 0 <= ord2[k] < y.len()
        && x[ord1[k]].0 == y[ord2[k]].0 && same_json(x[ord1[k]].1, y[ord2[k]].1) by {
        assert(walked(sx)[k] == walked(sy)[k]);
        assert(sx[ord1[k]].0 == sy[ord2[k]].0);
        let j = ord2[k];
        assert(y[j].0 == x[o[j]].0);
        if o[j] != ord1[k] {
            if o[j] < ord1[k] {
                assert(x[o[j]].0 != x[ord1[k]].0);
            } else {
                assert(x[ord1[k]].0 != x[o[j]].0);
            }
        }
    }
}

/// The same JSON renders alike: a body whose keys stand in another order, at any depth, renders
/// to the same value and draws the same numbers.
pub proof fn lemma_render_same_json(t1: JsonV, t2: JsonV, i: nat, state: u64)
    requires
        same_json(t1, t2),
    ensures
        spec_render(t1, i, state) == spec_render(t2, i, state),
    decreases t1, 0nat,
{
    match t1 {
        JsonV::Array(x) => {
            if let JsonV::Array(y) = t2 {
                lemma_items_same_json(x, y, i, state, x.len());
            }
        },
        JsonV::Object(x) => {
            if let JsonV::Object(y) = t2 {
                if is_rand(x) {
                    let o = choose|order: Seq<int>| #[trigger] reorders(order, x.len()) && forall|k: int| 0 <= k < y.len() ==>
                        0 <= order[k] < x.len() && (#[trigger] y[k]).0 == x[order[k]].0 && same_json(x[order[k]].1, y[k].1);
                    assert(o[0] == 0);
                    assert(y[0].0 == x[0].0 && same_json(x[0].1, y[0].1));
                    if let JsonV::Array(b) = x[0].1 {
                        if let JsonV::Array(c) = y[0].1 {
                            assert(same_json(b[0], c[0]) && same_json(b[1], c[1]));
                            assert(spec_as_u64(Some(b[0])) == spec_as_u64(Some(c[0])));
                            assert(spec_as_u64(Some(b[1])) == spec_as_u64(Some(c[1])));
                        }
                    }
                    assert(is_rand(y));
                } else {
                    assert(!is_rand(y)) by {
                        if is_rand(y) {
                            let o = choose|order: Seq<int>| #[trigger] reorders(order, x.len()) && forall|k: int| 0 <= k < y.len() ==>
                                0 <= order[k] < x.len() && (#[trigger] y[k]).0 == x[order[k]].0 && same_json(x[order[k]].1, y[k].1);
                            assert(o[0] == 0);
                            assert(y[0].0 == x[0].0 && same_json(x[0].1, y[0].1));
                        }
                    }
                    lemma_walked_alike(x, y);
                    let ord1 = key_order_spec(keys_in(x), x.len());
                    let ord2 = key_order_spec(keys_in(y), y.len());
                    lemma_entries_same_json(x, ord1, y, ord2, i, state, ord1.len());
                }
            }
        },
        _ => {},
    }
}

proof fn lemma_items_same_json(x: Seq<JsonV>, y: Seq<JsonV>, i: nat, state: u64, m: nat)
    requires
        x.len() == y.len(),
        m <= x.len(),
        forall|k: int| 0 <= k < x.len() ==> same_json(#[trigger] x[k], y[k]),
    ensures
        render_items(x, i, state, m) == render_items(y, i, state, m),
    decreases x, m,
{
    if m > 0 {
        lemma_items_same_json(x, y, i, state, (m - 1) as nat);
        let (_, s1) = render_items(x, i, state, (m - 1) as nat);
        assert(decreases_to!(x => x[m - 1]));
        lemma_render_same_json(x[m - 1], y[m - 1], i, s1);
    }
}

proof fn lemma_entries_same_json(
    x: Seq<(Seq<char>, JsonV)>,
    ord1: Seq<int>,
    y: Seq<(Seq<char>, JsonV)>,
    ord2: Seq<int>,
    i: nat,
    state: u64,
    m: nat,
)
    requires
        m <= ord1.len(),
        ord1.len() == ord2.len(),
        forall|k: int| 0 <= k < m ==> 0 <= #[trigger] ord1[k] < x.len() && 0 <= ord2[k] < y.len()
            && x[ord1[k]].0 == y[ord2[k]].0 && same_json(x[ord1[k]].1, y[ord2[k]].1),
    ensures
        render_entries(x, ord1, i, state, m) == render_entries(y, ord2, i, state, m),
    decreases x, m,
{
    if m > 0 {
        lemma_entries_same_json(x, ord1, y, ord2, i, state, (m - 1) as nat);
        let (_, s1) = render_entries(x, ord1, i, state, (m - 1) as nat);
        let j = ord1[m - 1];
        assert(0 <= j < x.len());
        assert(decreases_to!(x => x[j]));
        assert(decreases_to!(x[j] => x[j].1));
        lemma_render_same_json(x[j].1, y[ord2[m - 1]].1, i, s1);
    }
}

pub open spec fn keys_in(es: Seq<(Seq<char>, JsonV)>) -> Seq<Seq<char>> {
    Seq::new(es.len(), |i: int| es[i].0)
}

/// What rendering `t` for instance `i` gives, and the generator's state after: strings with `<i>`
/// replaced by `i` in decimal; arrays item by item; a `$rand` an integer drawn from its inclusive
/// range, consuming one draw when the range is wider than a point; any other object its entries in
/// key order, each rendered; everything else unchanged.
pub open spec fn spec_render(t: JsonV, i: nat, state: u64) -> (JsonV, u64)
    decreases t, 0nat,
{
    match t {
        JsonV::Str(s) => (JsonV::Str(spec_replace(s, seq!['<', 'i', '>'], spec_decimal(i))), state),
        JsonV::Array(a) => {
            let (items, st) = render_items(a, i, state, a.len());
            (JsonV::Array(items), st)
        },
        JsonV::Object(es) => if is_rand(es) {
            let (lo, hi) = (rand_lo(es), rand_hi(es));
            if hi > lo {
                let next = crate::rng::spec_advance(state);
                (JsonV::Uint((lo + crate::rng::spec_mix(next) % ((hi + 1 - lo) as u64)) as u64), next)
            } else {
                (JsonV::Uint(lo), state)
            }
        } else {
            let ord = key_order_spec(keys_in(es), es.len());
            let (outs, st) = render_entries(es, ord, i, state, ord.len());
            (JsonV::Object(outs), st)
        },
        _ => (t, state),
    }
}

/// The first `m` items of `a` rendered in order, and the state after.
pub open spec fn render_items(a: Seq<JsonV>, i: nat, state: u64, m: nat) -> (Seq<JsonV>, u64)
    decreases a, m,
{
    if m == 0 || m > a.len() {
        (Seq::empty(), state)
    } else {
        let (pre, s1) = render_items(a, i, state, (m - 1) as nat);
        let (x, s2) = spec_render(a[m - 1], i, s1);
        (pre.push(x), s2)
    }
}

/// The entries of `es` in the order `ord`, the first `m` of them rendered, and the state after.
pub open spec fn render_entries(es: Seq<(Seq<char>, JsonV)>, ord: Seq<int>, i: nat, state: u64, m: nat) -> (Seq<(Seq<char>, JsonV)>, u64)
    decreases es, m,
{
    if m == 0 || m > ord.len() || !(0 <= ord[m - 1] < es.len()) {
        (Seq::empty(), state)
    } else {
        let (pre, s1) = render_entries(es, ord, i, state, (m - 1) as nat);
        let (x, s2) = spec_render(es[ord[m - 1]].1, i, s1);
        (pre.push((es[ord[m - 1]].0, x)), s2)
    }
}

/// The indices of `es`, ordered by key, stably.
fn key_order(es: &Vec<(String, Json)>) -> (order: Vec<usize>)
    ensures
        Seq::new(order@.len(), |j: int| order@[j] as int) == key_order_spec(keys_in(entries_view(es@)), es@.len()),
        order@.len() == es@.len(),
        forall|j: int| 0 <= j < order@.len() ==> (#[trigger] order@[j]) < es@.len(),
{
    let ghost keys = keys_in(entries_view(es@));
    let mut order: Vec<usize> = Vec::new();
    let mut idx: usize = 0;
    while idx < es.len()
        invariant
            keys == keys_in(entries_view(es@)),
            idx <= es@.len(),
            Seq::new(order@.len(), |j: int| order@[j] as int) == key_order_spec(keys, idx as nat),
        decreases es@.len() - idx,
    {
        let ghost o = Seq::new(order@.len(), |j: int| order@[j] as int);
        proof {
            lemma_key_order_indices(keys, idx as nat);
        }
        let mut pos = order.len();
        while pos > 0 && !text_le(es[order[pos - 1]].0.as_str(), es[idx].0.as_str())
            invariant
                pos <= order@.len(),
                idx < es@.len(),
                o == Seq::new(order@.len(), |j: int| order@[j] as int),
                o.len() == idx,
                forall|j: int| 0 <= j < idx ==> 0 <= #[trigger] o[j] < idx,
                keys == keys_in(entries_view(es@)),
                order_pos(o, keys, idx as int, pos as int) == order_pos(o, keys, idx as int, o.len() as int),
            decreases pos,
        {
            assert(keys[o[pos - 1]] == es@[order@[pos - 1] as int].0@);
            assert(keys[idx as int] == es@[idx as int].0@);
            pos = pos - 1;
        }
        proof {
            if pos > 0 {
                assert(keys[o[pos - 1]] == es@[order@[pos - 1] as int].0@);
                assert(keys[idx as int] == es@[idx as int].0@);
            }
            lemma_order_pos_bounds(o, keys, idx as int, o.len() as int);
        }
        order.insert(pos, idx);
        assert(Seq::new(order@.len(), |j: int| order@[j] as int) =~= o.insert(pos as int, idx as int));
        idx = idx + 1;
    }
    proof {
        lemma_key_order_indices(keys, es@.len());
        assert forall|j: int| 0 <= j < order@.len() implies (#[trigger] order@[j]) < es@.len() by {
            assert(Seq::new(order@.len(), |j: int| order@[j] as int)[j] == order@[j] as int);
        }
    }
    order
}

/// Whether the entries are a `$rand` request, by the same test [`is_rand`] states.
fn rand_request(es: &Vec<(String, Json)>) -> (r: Option<(u64, u64)>)
    ensures
        r is Some <==> is_rand(entries_view(es@)),
        r matches Some((lo, hi)) ==> lo == rand_lo(entries_view(es@)) && hi == rand_hi(entries_view(es@)),
{
    if es.len() != 1 {
        return None;
    }
    proof {
        reveal_strlit("$rand");
    }
    let ghost ev = entries_view(es@);
    assert("$rand"@ =~= seq!['$', 'r', 'a', 'n', 'd']);
    assert(ev[0].0 == es@[0].0@);
    assert(ev[0].1 == es@[0].1@);
    if !same_text(es[0].0.as_str(), "$rand") {
        return None;
    }
    match &es[0].1 {
        Json::Array(b) => {
            if b.len() != 2 {
                return None;
            }
            let lo = match b[0].as_u64() {
                Some(x) => x,
                None => 0,
            };
            let hi = match b[1].as_u64() {
                Some(x) => x,
                None => lo,
            };
            proof {
                if let JsonV::Array(bv) = ev[0].1 {
                    assert(bv[0] == b@[0]@);
                    assert(bv[1] == b@[1]@);
                }
            }
            Some((lo, hi))
        },
        _ => None,
    }
}

/// Whether every `$rand` of a template can be drawn: one wider than a point ends below `u64::MAX`.
pub fn template_fits(t: &Json) -> (r: bool)
    ensures
        r == template_ok(t@),
    decreases t,
{
    match t {
        Json::Object(es) => {
            let ghost ev = entries_view(es@);
            proof {
                if let JsonV::Object(x) = t@ {
                    assert(x =~= ev);
                }
            }
            match rand_request(es) {
                Some((lo, hi)) => hi <= lo || hi < u64::MAX,
                None => {
                    let mut k: usize = 0;
                    while k < es.len()
                        invariant
                            *t is Object,
                            t->Object_0 == *es,
                            ev == entries_view(es@),
                            t@ == JsonV::Object(ev),
                            !is_rand(ev),
                            k <= es@.len(),
                            forall|j: int| 0 <= j < k ==> template_ok(#[trigger] ev[j].1),
                        decreases es@.len() - k,
                    {
                        proof {
                            assert(decreases_to!(*t => t->Object_0@[k as int]));
                            assert(decreases_to!(t->Object_0@[k as int] => t->Object_0@[k as int].1));
                        }
                        assert(ev[k as int].1 == es@[k as int].1@);
                        if !template_fits(&es[k].1) {
                            return false;
                        }
                        k = k + 1;
                    }
                    true
                },
            }
        },
        Json::Array(a) => {
            let ghost av = Seq::new(a@.len(), |i: int| a@[i]@);
            proof {
                if let JsonV::Array(x) = t@ {
                    assert(x =~= av);
                }
            }
            let mut k: usize = 0;
            while k < a.len()
                invariant
                    *t is Array,
                    t->Array_0 == *a,
                    av == Seq::new(a@.len(), |i: int| a@[i]@),
                    t@ == JsonV::Array(av),
                    k <= a@.len(),
                    forall|j: int| 0 <= j < k ==> template_ok(#[trigger] av[j]),
                decreases a@.len() - k,
            {
                proof {
                    assert(decreases_to!(*t => t->Array_0@[k as int]));
                }
                assert(av[k as int] == a@[k as int]@);
                if !template_fits(&a[k]) {
                    assert(!template_ok(JsonV::Array(av))) by {
                        let v = JsonV::Array(av);
                        assert(decreases_to!(v => v->Array_0));
                        assert(decreases_to!(v->Array_0 => v->Array_0[k as int]));
                    }
                    return false;
                }
                k = k + 1;
            }
            true
        },
        _ => true,
    }
}

/// Render a stimulus template for instance `i`.
pub fn render(t: &Json, i: u64, r: &mut Rng) -> (out: Json)
    requires
        template_ok(t@),
    ensures
        (out@, final(r)@) == spec_render(t@, i as nat, old(r)@),
    decreases t,
{
    match t {
        Json::Str(s) => {
            let n = decimal(i);
            proof {
                reveal_strlit("<i>");
                assert("<i>"@ =~= seq!['<', 'i', '>']);
            }
            let replaced = replace_all(s.as_str(), "<i>", n.as_str());
            Json::Str(replaced)
        },
        Json::Array(a) => {
            let ghost av = Seq::new(a@.len(), |j: int| a@[j]@);
            proof {
                if let JsonV::Array(x) = t@ {
                    assert(x =~= av);
                }
            }
            let mut items: Vec<Json> = Vec::new();
            let mut k: usize = 0;
            while k < a.len()
                invariant
                    *t is Array,
                    t->Array_0 == *a,
                    t@ == JsonV::Array(av),
                    av == Seq::new(a@.len(), |j: int| a@[j]@),
                    template_ok(t@),
                    k <= a@.len(),
                    (Seq::new(items@.len(), |j: int| items@[j]@), r@) == render_items(av, i as nat, old(r)@, k as nat),
                decreases a@.len() - k,
            {
                proof {
                    assert(decreases_to!(*t => t->Array_0@[k as int]));
                    assert(av[k as int] == a@[k as int]@);
                    let v = t@;
                    assert(decreases_to!(v => v->Array_0));
                    assert(decreases_to!(v->Array_0 => v->Array_0[k as int]));
                    assert(template_ok(av[k as int]));
                }
                let ghost before = Seq::new(items@.len(), |j: int| items@[j]@);
                let x = render(&a[k], i, r);
                items.push(x);
                assert(Seq::new(items@.len(), |j: int| items@[j]@) =~= before.push(x@));
                k = k + 1;
            }
            let out = Json::Array(items);
            proof {
                if let JsonV::Array(x) = out@ {
                    assert(x =~= Seq::new(items@.len(), |j: int| items@[j]@));
                }
            }
            out
        },
        Json::Object(es) => {
            let ghost ev = entries_view(es@);
            proof {
                if let JsonV::Object(x) = t@ {
                    assert(x =~= ev);
                }
            }
            match rand_request(es) {
                Some((lo, hi)) => {
                    let x = if hi > lo { r.range(lo, hi + 1) } else { lo };
                    Json::Uint(x)
                },
                None => {
                    let order = key_order(es);
                    let ghost ord = Seq::new(order@.len(), |j: int| order@[j] as int);
                    assert(keys_in(ev) =~= keys_in(entries_view(es@)));
                    let mut outs: Vec<(String, Json)> = Vec::new();
                    let mut k: usize = 0;
                    while k < order.len()
                        invariant
                            *t is Object,
                            t->Object_0 == *es,
                            t@ == JsonV::Object(ev),
                            ev == entries_view(es@),
                            !is_rand(ev),
                            template_ok(t@),
                            order@.len() == es@.len(),
                            ord == Seq::new(order@.len(), |j: int| order@[j] as int),
                            forall|j: int| 0 <= j < order@.len() ==> (#[trigger] order@[j]) < es@.len(),
                            k <= order@.len(),
                            (entries_view(outs@), r@) == render_entries(ev, ord, i as nat, old(r)@, k as nat),
                        decreases order@.len() - k,
                    {
                        let idx = order[k];
                        proof {
                            assert(decreases_to!(*t => t->Object_0@[idx as int]));
                            assert(decreases_to!(t->Object_0@[idx as int] => t->Object_0@[idx as int].1));
                            assert(ev[idx as int].1 == es@[idx as int].1@);
                            assert(template_ok(ev[idx as int].1));
                            assert(ord[k as int] == idx as int);
                        }
                        let ghost before = entries_view(outs@);
                        let v = render(&es[idx].1, i, r);
                        outs.push((es[idx].0.clone(), v));
                        assert(entries_view(outs@) =~= before.push((ev[idx as int].0, v@)));
                        k = k + 1;
                    }
                    let out = Json::Object(outs);
                    proof {
                        if let JsonV::Object(x) = out@ {
                            assert(x =~= entries_view(outs@));
                        }
                    }
                    out
                },
            }
        },
        Json::Null => Json::Null,
        Json::Bool(b) => Json::Bool(*b),
        Json::Uint(u) => Json::Uint(*u),
        Json::Int(x) => Json::Int(*x),
        Json::Float(f) => Json::Float(*f),
    }
}

} // verus!
