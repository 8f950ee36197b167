//! Mermaid `sequenceDiagram` output.
//!
//! Renders natively on GitHub and in most doc tools, so a run can be pasted straight into a report.
//! Cheap to produce because the journal is already totally ordered by logical time.
//!
//! What the diagram is for: seeing why a run went wrong. That means showing what the outside world
//! asked for, what each node reported, what the network did to them, and which messages never
//! arrived.

use vstd::prelude::*;
use crate::json::{Json, JsonV, spec_get, spec_as_str, spec_as_u64, spec_str_field};
use crate::suite::{detail_get, values_view};
use crate::text::{seq_le, text_le, same_text, text, push_str, push_char, push_decimal, spec_decimal};
use crate::words::strings_view;
use crate::checkers::holds_text;

verus! {

/// Note backgrounds, by what the note is. Mermaid has no per-note colour, so each note stands in
/// a one-statement `rect` that hugs it. Tints of Okabe-Ito, which stays distinguishable under
/// every common form of colour blindness.
///
/// Orange: the world asked for something.
pub const ASKED: &'static str = "rect rgb(250, 228, 190)";
/// Sky blue: a node reported something.
pub const REPORTED: &'static str = "rect rgb(199, 228, 246)";
/// Purple: the network did something to a node.
pub const BEFELL: &'static str = "rect rgb(236, 205, 224)";

/// Notes are transparent so the coloured rect behind each one shows through, and the lifeline is
/// dimmed because it is drawn between the two and would otherwise cut across every label.
pub const HEADER: &'static str = "%%{init: {\"themeVariables\": {\"noteBkgColor\": \"transparent\", \"noteBorderColor\": \"transparent\", \"actorLineColor\": \"#d5d5d5\"}}}%%\nsequenceDiagram\n";

// ------------------------------------------------------------ flight times

/// `(src, dest, t of each send still in flight, oldest first)`.
pub type Pending = Seq<(Seq<char>, Seq<char>, Seq<Option<u64>>)>;

pub open spec fn find_link(p: Pending, s: Seq<char>, d: Seq<char>, from: int) -> int
    decreases p.len() - from,
{
    if from < 0 || from >= p.len() {
        -1
    } else if p[from].0 == s && p[from].1 == d {
        from
    } else {
        find_link(p, s, d, from + 1)
    }
}

pub proof fn lemma_find_link(p: Pending, s: Seq<char>, d: Seq<char>, from: int)
    requires
        0 <= from,
    ensures
        find_link(p, s, d, from) == -1 || (from <= find_link(p, s, d, from) < p.len()
            && p[find_link(p, s, d, from)].0 == s && p[find_link(p, s, d, from)].1 == d),
    decreases p.len() - from,
{
    if from < p.len() && !(p[from].0 == s && p[from].1 == d) {
        lemma_find_link(p, s, d, from + 1);
    }
}

pub open spec fn kind_of(v: JsonV) -> Seq<char> {
    spec_str_field(v, "kind"@)
}

/// What the messages in flight become after one more entry, and when the message this entry
/// delivers was posted, if it is a delivery matched to its send. Matched oldest-first per link,
/// which is what FIFO means.
pub open spec fn flight_step(p: Pending, v: JsonV) -> (Pending, Option<u64>) {
    let s = spec_as_str(spec_get(v, "src"@));
    let d = spec_as_str(spec_get(v, "dest"@));
    if s is Some && d is Some {
        let k = find_link(p, s->0, d->0, 0);
        if kind_of(v) == "send"@ {
            let t = spec_as_u64(spec_get(v, "t"@));
            if k >= 0 {
                (p.update(k, (p[k].0, p[k].1, p[k].2.push(t))), None)
            } else {
                (p.push((s->0, d->0, seq![t])), None)
            }
        } else if kind_of(v) == "recv"@ && k >= 0 && p[k].2.len() > 0 {
            (p.update(k, (p[k].0, p[k].1, p[k].2.drop_first())), p[k].2[0])
        } else {
            (p, None)
        }
    } else {
        (p, None)
    }
}

/// For each entry, when the message it delivers was posted, if it is a matched delivery.
pub open spec fn flights(es: Seq<JsonV>) -> (Pending, Seq<Option<u64>>)
    decreases es.len(),
{
    if es.len() == 0 {
        (Seq::empty(), Seq::empty())
    } else {
        let (p, posted) = flights(es.drop_last());
        let (p2, at) = flight_step(p, es.last());
        (p2, posted.push(at))
    }
}

pub open spec fn link_view(p: Seq<(String, String, Vec<Option<u64>>)>) -> Pending {
    Seq::new(p.len(), |i: int| (p[i].0@, p[i].1@, p[i].2@))
}

/// The string at `key` of `v`, if there is one.
fn str_of<'a>(v: &'a Json, key: &str) -> (r: Option<&'a String>)
    ensures
        r matches Some(s) ==> spec_as_str(spec_get(v@, key@)) == Some(s@),
        r is None ==> spec_as_str(spec_get(v@, key@)) is None,
{
    match v.get(key) {
        Some(x) => x.as_str(),
        None => None,
    }
}

/// For each entry, when the message it delivers was posted.
fn posted_times(entries: &Vec<Json>) -> (r: Vec<Option<u64>>)
    ensures
        r@ == flights(values_view(entries@)).1,
{
    let ghost es = values_view(entries@);
    let mut p: Vec<(String, String, Vec<Option<u64>>)> = Vec::new();
    let mut posted: Vec<Option<u64>> = Vec::new();
    let mut i: usize = 0;
    while i < entries.len()
        invariant
            es == values_view(entries@),
            i <= entries@.len(),
            (link_view(p@), posted@) == flights(es.subrange(0, i as int)),
        decreases entries@.len() - i,
    {
        let ghost pre = es.subrange(0, i + 1);
        assert(pre.drop_last() =~= es.subrange(0, i as int));
        assert(pre.last() == entries@[i as int]@);
        let v = &entries[i];
        let ghost pv = link_view(p@);
        let s = str_of(v, "src");
        let d = str_of(v, "dest");
        let mut at: Option<u64> = None;
        match (s, d) {
            (Some(s), Some(d)) => {
                let mut k: usize = 0;
                while k < p.len() && !(same_text(p[k].0.as_str(), s.as_str()) && same_text(p[k].1.as_str(), d.as_str()))
                    invariant
                        pv == link_view(p@),
                        k <= p@.len(),
                        find_link(pv, s@, d@, 0) == find_link(pv, s@, d@, k as int),
                    decreases p@.len() - k,
                {
                    k = k + 1;
                }
                proof {
                    lemma_find_link(pv, s@, d@, 0);
                    if k < p@.len() {
                        assert(pv[k as int].0 == s@ && pv[k as int].1 == d@);
                    }
                }
                let kind = v.str_field("kind");
                if same_text(kind.as_str(), "send") {
                    let t = v.u64_field("t");
                    if k < p.len() {
                        let mut e = p.remove(k);
                        e.2.push(t);
                        p.insert(k, e);
                        assert(link_view(p@) =~= pv.update(k as int, (pv[k as int].0, pv[k as int].1, pv[k as int].2.push(t))));
                    } else {
                        let mut q: Vec<Option<u64>> = Vec::new();
                        q.push(t);
                        assert(q@ =~= seq![t]);
                        p.push((s.clone(), d.clone(), q));
                        assert(link_view(p@) =~= pv.push((s@, d@, seq![t])));
                    }
                } else if same_text(kind.as_str(), "recv") && k < p.len() && p[k].2.len() > 0 {
                    let mut e = p.remove(k);
                    at = e.2.remove(0);
                    p.insert(k, e);
                    assert(link_view(p@) =~= pv.update(k as int, (pv[k as int].0, pv[k as int].1, pv[k as int].2.drop_first())));
                }
            },
            _ => {},
        }
        posted.push(at);
        i = i + 1;
    }
    assert(es.subrange(0, es.len() as int) =~= es);
    posted
}

// ------------------------------------------------------------------ drawing

/// What the diagram holds so far: its processes in first-seen order, its lines, and how many
/// messages and reports it shows.
pub struct DiagramV {
    pub participants: Seq<Seq<char>>,
    pub lines: Seq<Seq<char>>,
    pub shown: nat,
}

/// Brings a name into the diagram, in first-seen order.
pub open spec fn seen(ps: Seq<Seq<char>>, p: Seq<char>) -> Seq<Seq<char>> {
    if ps.contains(p) { ps } else { ps.push(p) }
}

/// A note over `p` in the colour of what it is.
pub open spec fn note_line(colour: Seq<char>, p: Seq<char>, text: Seq<char>) -> Seq<char> {
    "    "@ + colour + "\n        Note over "@ + p + ": "@ + text + "\n    end"@
}

/// Mermaid ends a note at a colon, and a stray one silently truncates the label.
pub open spec fn safe(s: Seq<char>) -> Seq<char> {
    Seq::new(s.len(), |i: int| if s[i] == ':' { ' ' } else { s[i] })
}

/// The type of an entry's body, or `msg`.
pub open spec fn msg_ty(v: JsonV) -> Seq<char> {
    match spec_get(v, "body"@) {
        Some(b) => match spec_as_str(spec_get(b, "type"@)) {
            Some(x) => x,
            None => "msg"@,
        },
        None => "msg"@,
    }
}

pub open spec fn or_unknown(o: Option<Seq<char>>) -> Seq<char> {
    match o {
        Some(x) => x,
        None => "?"@,
    }
}

pub open spec fn time_of(v: JsonV) -> u64 {
    match spec_as_u64(spec_get(v, "t"@)) {
        Some(t) => t,
        None => 0,
    }
}

/// The strings among `a`, in order.
pub open spec fn strs_in(a: Seq<JsonV>) -> Seq<Seq<char>>
    decreases a.len(),
{
    if a.len() == 0 {
        Seq::empty()
    } else {
        let rest = strs_in(a.drop_last());
        match a.last() {
            JsonV::Str(s) => rest.push(s),
            _ => rest,
        }
    }
}

/// The nodes on side A of a partition.
pub open spec fn side_of(v: JsonV) -> Seq<Seq<char>> {
    match detail_get(v, "side"@) {
        Some(JsonV::Array(a)) => strs_in(a),
        _ => Seq::empty(),
    }
}

/// `ps`, then each of `more` it does not hold yet.
pub open spec fn add_missing(ps: Seq<Seq<char>>, more: Seq<Seq<char>>) -> Seq<Seq<char>>
    decreases more.len(),
{
    if more.len() == 0 {
        ps
    } else {
        let rest = add_missing(ps, more.drop_last());
        if rest.contains(more.last()) { rest } else { rest.push(more.last()) }
    }
}

/// Where `x` goes among the ordered names `s`: after every one that does not come after it.
pub open spec fn name_pos(s: Seq<Seq<char>>, x: Seq<char>, from: int) -> int
    decreases s.len() - from,
{
    if from < 0 || from >= s.len() {
        if from < 0 { 0 } else { from }
    } else if !seq_le(s[from], x) {
        from
    } else {
        name_pos(s, x, from + 1)
    }
}

pub proof fn lemma_name_pos_bounds(s: Seq<Seq<char>>, x: Seq<char>, from: int)
    requires
        0 <= from <= s.len(),
    ensures
        from <= name_pos(s, x, from) <= s.len(),
    decreases s.len() - from,
{
    if from < s.len() && seq_le(s[from], x) {
        lemma_name_pos_bounds(s, x, from + 1);
    }
}

/// The names in order.
pub open spec fn sort_names(s: Seq<Seq<char>>) -> Seq<Seq<char>>
    decreases s.len(),
{
    if s.len() == 0 {
        Seq::empty()
    } else {
        let sorted = sort_names(s.drop_last());
        sorted.insert(name_pos(sorted, s.last(), 0), s.last())
    }
}

/// One note per node, telling it which side of a split it is on.
pub open spec fn split_notes(st: DiagramV, names: Seq<Seq<char>>, side: Seq<Seq<char>>, until: u64) -> DiagramV
    decreases names.len(),
{
    if names.len() == 0 {
        st
    } else {
        let st2 = split_notes(st, names.drop_last(), side, until);
        let n = names.last();
        let group = if side.contains(n) { "A"@ } else { "B"@ };
        DiagramV {
            participants: seen(st2.participants, n),
            lines: st2.lines.push(note_line(BEFELL@, n, "SPLIT "@ + group + " until @"@ + spec_decimal(until as nat))),
            shown: st2.shown,
        }
    }
}

/// What one journal entry adds to the diagram. `posted` is when the message it delivers left,
/// if it is a matched delivery.
pub open spec fn diagram_step(st: DiagramV, v: JsonV, posted: Option<u64>, limit: nat) -> DiagramV {
    let kind = kind_of(v);
    let t = time_of(v);
    let ps = st.participants;
    if kind == "init"@ {
        match spec_as_str(spec_get(v, "dest"@)) {
            Some(n) => DiagramV { participants: seen(ps, n), ..st },
            None => st,
        }
    } else if kind == "stimulus"@ {
        let dst = or_unknown(spec_as_str(spec_get(v, "dest"@)));
        DiagramV {
            participants: seen(ps, dst),
            lines: st.lines.push(note_line(ASKED@, dst, "asked "@ + safe(msg_ty(v)) + " @"@ + spec_decimal(t as nat))),
            ..st
        }
    } else if kind == "recv"@ {
        if st.shown >= limit {
            st
        } else {
            let src = or_unknown(spec_as_str(spec_get(v, "src"@)));
            let dst = or_unknown(spec_as_str(spec_get(v, "dest"@)));
            let when = match posted {
                Some(t0) => if t0 != t {
                    spec_decimal(t0 as nat) + " to "@ + spec_decimal(t as nat)
                } else {
                    "@"@ + spec_decimal(t as nat)
                },
                None => "@"@ + spec_decimal(t as nat),
            };
            DiagramV {
                participants: seen(seen(ps, src), dst),
                lines: st.lines.push("    "@ + src + "->>"@ + dst + ": "@ + safe(msg_ty(v)) + " "@ + when),
                shown: st.shown + 1,
            }
        }
    } else if kind == "never-sent"@ {
        match (spec_as_str(detail_get(v, "src"@)), spec_as_str(detail_get(v, "dest"@))) {
            (Some(s), Some(d)) => DiagramV {
                participants: seen(seen(ps, s), d),
                lines: st.lines.push("    "@ + s + "-x"@ + d + ": never left, "@ + s + " had died @"@ + spec_decimal(t as nat)),
                ..st
            },
            _ => st,
        }
    } else if kind == "fault-crash"@ {
        let n = or_unknown(spec_as_str(detail_get(v, "node"@)));
        DiagramV {
            participants: seen(ps, n),
            lines: st.lines.push(note_line(BEFELL@, n, "CRASH @"@ + spec_decimal(t as nat))),
            ..st
        }
    } else if kind == "fault-pause"@ {
        let n = or_unknown(spec_as_str(detail_get(v, "node"@)));
        let until = match spec_as_u64(detail_get(v, "until"@)) {
            Some(u) => u,
            None => t,
        };
        DiagramV {
            participants: seen(ps, n),
            lines: st.lines.push(note_line(BEFELL@, n, "frozen, handles nothing until @"@ + spec_decimal(until as nat))),
            ..st
        }
    } else if kind == "fault-partition"@ {
        let side = side_of(v);
        let until = match spec_as_u64(detail_get(v, "until"@)) {
            Some(u) => u,
            None => t,
        };
        split_notes(st, sort_names(add_missing(ps, side)), side, until)
    } else if kind == "observe"@ {
        if st.shown >= limit {
            st
        } else {
            let src = or_unknown(spec_as_str(spec_get(v, "src"@)));
            DiagramV {
                participants: seen(ps, src),
                lines: st.lines.push(note_line(REPORTED@, src, safe(msg_ty(v)) + " @"@ + spec_decimal(t as nat))),
                ..st
            }
        }
    } else {
        st
    }
}

pub open spec fn empty_diagram() -> DiagramV {
    DiagramV { participants: Seq::empty(), lines: Seq::empty(), shown: 0 }
}

/// The diagram of the entries `es`, whose messages left when `posted` says.
pub open spec fn draw_entries(es: Seq<JsonV>, posted: Seq<Option<u64>>, limit: nat) -> DiagramV
    decreases es.len(),
{
    if es.len() == 0 || posted.len() != es.len() {
        empty_diagram()
    } else {
        diagram_step(draw_entries(es.drop_last(), posted.drop_last(), limit), es.last(), posted.last(), limit)
    }
}

pub open spec fn participant_lines(ps: Seq<Seq<char>>) -> Seq<char>
    decreases ps.len(),
{
    if ps.len() == 0 {
        Seq::empty()
    } else {
        participant_lines(ps.drop_last()) + "    participant "@ + ps.last() + "\n"@
    }
}

pub open spec fn body_lines(ls: Seq<Seq<char>>) -> Seq<char>
    decreases ls.len(),
{
    if ls.len() == 0 {
        Seq::empty()
    } else {
        body_lines(ls.drop_last()) + ls.last() + "\n"@
    }
}

/// The diagram of a journal: the header, its processes by name, then what happened in order.
/// Only processes appear: what the harness asks for is a note on the node it asks.
pub open spec fn spec_diagram(es: Seq<JsonV>, limit: nat) -> (Seq<char>, nat) {
    let st = draw_entries(es, flights(es).1, limit);
    (HEADER@ + participant_lines(sort_names(st.participants)) + body_lines(st.lines), st.shown)
}

/// Whether a journal entry is a message arriving.
pub open spec fn is_recv(v: JsonV) -> bool {
    kind_of(v) == "recv"@
}

/// How many messages arrived in a journal.
pub open spec fn arrivals(es: Seq<JsonV>) -> nat {
    es.filter(|v: JsonV| is_recv(v)).len()
}

proof fn lemma_split_notes_shown(st: DiagramV, names: Seq<Seq<char>>, side: Seq<Seq<char>>, until: u64)
    ensures
        split_notes(st, names, side, until).shown == st.shown,
    decreases names.len(),
{
    if names.len() > 0 {
        lemma_split_notes_shown(st, names.drop_last(), side, until);
    }
}

proof fn lemma_drawn_shown(es: Seq<JsonV>, posted: Seq<Option<u64>>, limit: nat)
    requires
        posted.len() == es.len(),
    ensures
        draw_entries(es, posted, limit).shown == if arrivals(es) < limit { arrivals(es) } else { limit },
    decreases es.len(),
{
    reveal(Seq::filter);
    if es.len() > 0 {
        lemma_drawn_shown(es.drop_last(), posted.drop_last(), limit);
        let st = draw_entries(es.drop_last(), posted.drop_last(), limit);
        let v = es.last();
        assert(arrivals(es) == arrivals(es.drop_last()) + if is_recv(v) { 1int } else { 0int });
        assert(draw_entries(es, posted, limit) == diagram_step(st, v, posted.last(), limit));
        if kind_of(v) == "fault-partition"@ {
            let side = side_of(v);
            let until = match spec_as_u64(detail_get(v, "until"@)) {
                Some(u) => u,
                None => time_of(v),
            };
            lemma_split_notes_shown(st, sort_names(add_missing(st.participants, side)), side, until);
        }
        reveal_strlit("recv");
        reveal_strlit("init");
        reveal_strlit("stimulus");
        assert("recv"@ != "init"@ && "recv"@ != "stimulus"@) by {
            assert("recv"@[0] != "init"@[0]);
            assert("recv"@.len() != "stimulus"@.len());
        }
        assert(diagram_step(st, v, posted.last(), limit).shown == if is_recv(v) && st.shown < limit { st.shown + 1 } else { st.shown });
    }
}

/// How many messages a diagram shows: every message that arrived, up to the limit, and nothing
/// else; a report, a stimulus or a fault is drawn without counting against the limit.
pub proof fn lemma_diagram_counts_arrivals(es: Seq<JsonV>, limit: nat)
    ensures
        spec_diagram(es, limit).1 == if arrivals(es) < limit { arrivals(es) } else { limit },
{
    lemma_flights_len(es);
    lemma_drawn_shown(es, flights(es).1, limit);
}

struct Drawing {
    participants: Vec<String>,
    lines: Vec<String>,
    shown: usize,
}

impl View for Drawing {
    type V = DiagramV;

    closed spec fn view(&self) -> DiagramV {
        DiagramV {
            participants: strings_view(self.participants@),
            lines: strings_view(self.lines@),
            shown: self.shown as nat,
        }
    }
}

fn push_line(ls: &mut Vec<String>, l: String)
    ensures
        strings_view(final(ls)@) == strings_view(old(ls)@).push(l@),
{
    ls.push(l);
    assert(strings_view(ls@) =~= strings_view(old(ls)@).push(l@));
}

fn seen_exec(ps: &mut Vec<String>, p: &str)
    ensures
        strings_view(final(ps)@) == seen(strings_view(old(ps)@), p@),
{
    if !holds_text(ps, p) {
        push_line(ps, text(p));
    }
}

fn note_exec(colour: &str, p: &str, t: &str) -> (r: String)
    ensures
        r@ == note_line(colour@, p@, t@),
{
    let mut r = text("    ");
    push_str(&mut r, colour);
    push_str(&mut r, "\n        Note over ");
    push_str(&mut r, p);
    push_str(&mut r, ": ");
    push_str(&mut r, t);
    push_str(&mut r, "\n    end");
    r
}

fn safe_exec(s: &str) -> (r: String)
    ensures
        r@ == safe(s@),
{
    let cs = crate::text::chars_of(s);
    let mut r = String::new();
    let mut i: usize = 0;
    while i < cs.len()
        invariant
            cs@ == s@,
            i <= cs@.len(),
            r@ == safe(s@).subrange(0, i as int),
        decreases cs@.len() - i,
    {
        if cs[i] == ':' {
            push_char(&mut r, ' ');
        } else {
            push_char(&mut r, cs[i]);
        }
        i = i + 1;
        assert(r@ =~= safe(s@).subrange(0, i as int));
    }
    assert(safe(s@).subrange(0, cs@.len() as int) =~= safe(s@));
    r
}

fn msg_ty_exec(v: &Json) -> (r: String)
    ensures
        r@ == msg_ty(v@),
{
    match v.get("body") {
        Some(b) => match str_of(b, "type") {
            Some(x) => x.clone(),
            None => text("msg"),
        },
        None => text("msg"),
    }
}

fn detail_of<'a>(v: &'a Json, key: &str) -> (r: Option<&'a Json>)
    ensures
        r matches Some(x) ==> detail_get(v@, key@) == Some(x@),
        r is None ==> detail_get(v@, key@) is None,
{
    match v.get("detail") {
        Some(d) => d.get(key),
        None => None,
    }
}

fn detail_str<'a>(v: &'a Json, key: &str) -> (r: Option<&'a String>)
    ensures
        r matches Some(s) ==> spec_as_str(detail_get(v@, key@)) == Some(s@),
        r is None ==> spec_as_str(detail_get(v@, key@)) is None,
{
    match detail_of(v, key) {
        Some(x) => x.as_str(),
        None => None,
    }
}

fn or_unknown_exec(o: Option<&String>) -> (r: String)
    ensures
        r@ == or_unknown(match o { Some(s) => Some(s@), None => None }),
{
    match o {
        Some(s) => s.clone(),
        None => text("?"),
    }
}

fn side_exec(v: &Json) -> (r: Vec<String>)
    ensures
        strings_view(r@) == side_of(v@),
{
    let mut r: Vec<String> = Vec::new();
    match detail_of(v, "side") {
        Some(x) => match x {
        Json::Array(a) => {
            let ghost av = Seq::new(a@.len(), |i: int| a@[i]@);
            proof {
                if let JsonV::Array(w) = x@ {
                    assert(w =~= av);
                }
            }
            let mut i: usize = 0;
            while i < a.len()
                invariant
                    av == Seq::new(a@.len(), |i: int| a@[i]@),
                    i <= a@.len(),
                    strings_view(r@) == strs_in(av.subrange(0, i as int)),
                decreases a@.len() - i,
            {
                assert(av.subrange(0, i + 1).drop_last() =~= av.subrange(0, i as int));
                assert(av.subrange(0, i + 1).last() == a@[i as int]@);
                match a[i].as_str() {
                    Some(s) => push_line(&mut r, s.clone()),
                    None => {},
                }
                i = i + 1;
            }
            assert(av.subrange(0, av.len() as int) =~= av);
        },
        _ => {},
        },
        None => {},
    }
    r
}

fn add_missing_exec(ps: &Vec<String>, more: &Vec<String>) -> (r: Vec<String>)
    ensures
        strings_view(r@) == add_missing(strings_view(ps@), strings_view(more@)),
{
    let ghost mv = strings_view(more@);
    let mut r: Vec<String> = Vec::new();
    let mut i: usize = 0;
    while i < ps.len()
        invariant
            i <= ps@.len(),
            strings_view(r@) == strings_view(ps@).subrange(0, i as int),
        decreases ps@.len() - i,
    {
        push_line(&mut r, ps[i].clone());
        i = i + 1;
        assert(strings_view(r@) =~= strings_view(ps@).subrange(0, i as int));
    }
    assert(strings_view(ps@).subrange(0, ps@.len() as int) =~= strings_view(ps@));
    let mut j: usize = 0;
    while j < more.len()
        invariant
            mv == strings_view(more@),
            j <= more@.len(),
            strings_view(r@) == add_missing(strings_view(ps@), mv.subrange(0, j as int)),
        decreases more@.len() - j,
    {
        assert(mv.subrange(0, j + 1).drop_last() =~= mv.subrange(0, j as int));
        assert(mv.subrange(0, j + 1).last() == more@[j as int]@);
        if !holds_text(&r, more[j].as_str()) {
            push_line(&mut r, more[j].clone());
        }
        j = j + 1;
    }
    assert(mv.subrange(0, mv.len() as int) =~= mv);
    r
}

fn sort_names_exec(s: &Vec<String>) -> (r: Vec<String>)
    ensures
        strings_view(r@) == sort_names(strings_view(s@)),
{
    let ghost sv = strings_view(s@);
    let mut r: Vec<String> = Vec::new();
    let mut i: usize = 0;
    while i < s.len()
        invariant
            sv == strings_view(s@),
            i <= s@.len(),
            strings_view(r@) == sort_names(sv.subrange(0, i as int)),
        decreases s@.len() - i,
    {
        let ghost pre = sv.subrange(0, i + 1);
        assert(pre.drop_last() =~= sv.subrange(0, i as int));
        assert(pre.last() == s@[i as int]@);
        let ghost rv = strings_view(r@);
        let x = s[i].as_str();
        let mut k: usize = 0;
        while k < r.len() && text_le(r[k].as_str(), x)
            invariant
                rv == strings_view(r@),
                k <= r@.len(),
                name_pos(rv, x@, 0) == name_pos(rv, x@, k as int),
            decreases r@.len() - k,
        {
            k = k + 1;
        }
        proof {
            lemma_name_pos_bounds(rv, x@, 0);
        }
        r.insert(k, s[i].clone());
        assert(strings_view(r@) =~= rv.insert(k as int, x@));
        i = i + 1;
    }
    assert(sv.subrange(0, sv.len() as int) =~= sv);
    r
}

fn split_notes_exec(d: &mut Drawing, names: &Vec<String>, side: &Vec<String>, until: u64)
    ensures
        final(d)@ == split_notes(old(d)@, strings_view(names@), strings_view(side@), until),
        final(d).shown == old(d).shown,
{
    let ghost nv = strings_view(names@);
    let mut i: usize = 0;
    while i < names.len()
        invariant
            nv == strings_view(names@),
            i <= names@.len(),
            d@ == split_notes(old(d)@, nv.subrange(0, i as int), strings_view(side@), until),
            d.shown == old(d).shown,
        decreases names@.len() - i,
    {
        let ghost pre = nv.subrange(0, i + 1);
        assert(pre.drop_last() =~= nv.subrange(0, i as int));
        assert(pre.last() == names@[i as int]@);
        let n = names[i].as_str();
        let group = if holds_text(side, n) { "A" } else { "B" };
        let mut t = text("SPLIT ");
        push_str(&mut t, group);
        push_str(&mut t, " until @");
        push_decimal(&mut t, until);
        seen_exec(&mut d.participants, n);
        push_line(&mut d.lines, note_exec(BEFELL, n, t.as_str()));
        i = i + 1;
    }
    assert(nv.subrange(0, nv.len() as int) =~= nv);
}

fn step(d: &mut Drawing, v: &Json, posted: Option<u64>, limit: usize)
    requires
        old(d).shown <= limit,
    ensures
        final(d)@ == diagram_step(old(d)@, v@, posted, limit as nat),
        final(d).shown <= limit,
{
    let kind = v.str_field("kind");
    let k = kind.as_str();
    let t: u64 = match v.u64_field("t") {
        Some(t) => t,
        None => 0,
    };
    if same_text(k, "init") {
        match str_of(v, "dest") {
            Some(n) => seen_exec(&mut d.participants, n.as_str()),
            None => {},
        }
    } else if same_text(k, "stimulus") {
        let dst = or_unknown_exec(str_of(v, "dest"));
        seen_exec(&mut d.participants, dst.as_str());
        let mut x = text("asked ");
        let ty = safe_exec(msg_ty_exec(v).as_str());
        push_str(&mut x, ty.as_str());
        push_str(&mut x, " @");
        push_decimal(&mut x, t);
        push_line(&mut d.lines, note_exec(ASKED, dst.as_str(), x.as_str()));
    } else if same_text(k, "recv") {
        if d.shown < limit {
            let src = or_unknown_exec(str_of(v, "src"));
            let dst = or_unknown_exec(str_of(v, "dest"));
            seen_exec(&mut d.participants, src.as_str());
            seen_exec(&mut d.participants, dst.as_str());
            let mut when = String::new();
            match posted {
                Some(t0) => {
                    if t0 != t {
                        push_decimal(&mut when, t0);
                        push_str(&mut when, " to ");
                        push_decimal(&mut when, t);
                    } else {
                        push_str(&mut when, "@");
                        push_decimal(&mut when, t);
                    }
                },
                None => {
                    push_str(&mut when, "@");
                    push_decimal(&mut when, t);
                },
            }
            let mut l = text("    ");
            push_str(&mut l, src.as_str());
            push_str(&mut l, "->>");
            push_str(&mut l, dst.as_str());
            push_str(&mut l, ": ");
            let ty = safe_exec(msg_ty_exec(v).as_str());
            push_str(&mut l, ty.as_str());
            push_str(&mut l, " ");
            push_str(&mut l, when.as_str());
            push_line(&mut d.lines, l);
            d.shown = d.shown + 1;
        }
    } else if same_text(k, "never-sent") {
        match (detail_str(v, "src"), detail_str(v, "dest")) {
            (Some(s), Some(e)) => {
                seen_exec(&mut d.participants, s.as_str());
                seen_exec(&mut d.participants, e.as_str());
                let mut l = text("    ");
                push_str(&mut l, s.as_str());
                push_str(&mut l, "-x");
                push_str(&mut l, e.as_str());
                push_str(&mut l, ": never left, ");
                push_str(&mut l, s.as_str());
                push_str(&mut l, " had died @");
                push_decimal(&mut l, t);
                push_line(&mut d.lines, l);
            },
            _ => {},
        }
    } else if same_text(k, "fault-crash") {
        let n = or_unknown_exec(detail_str(v, "node"));
        seen_exec(&mut d.participants, n.as_str());
        let mut x = text("CRASH @");
        push_decimal(&mut x, t);
        push_line(&mut d.lines, note_exec(BEFELL, n.as_str(), x.as_str()));
    } else if same_text(k, "fault-pause") {
        let n = or_unknown_exec(detail_str(v, "node"));
        let until = match detail_of(v, "until") {
            Some(u) => match u.as_u64() {
                Some(u) => u,
                None => t,
            },
            None => t,
        };
        seen_exec(&mut d.participants, n.as_str());
        let mut x = text("frozen, handles nothing until @");
        push_decimal(&mut x, until);
        push_line(&mut d.lines, note_exec(BEFELL, n.as_str(), x.as_str()));
    } else if same_text(k, "fault-partition") {
        let side = side_exec(v);
        let until = match detail_of(v, "until") {
            Some(u) => match u.as_u64() {
                Some(u) => u,
                None => t,
            },
            None => t,
        };
        let everyone = sort_names_exec(&add_missing_exec(&d.participants, &side));
        split_notes_exec(d, &everyone, &side, until);
    } else if same_text(k, "observe") {
        if d.shown < limit {
            let src = or_unknown_exec(str_of(v, "src"));
            seen_exec(&mut d.participants, src.as_str());
            let ty = safe_exec(msg_ty_exec(v).as_str());
            let mut x = ty;
            push_str(&mut x, " @");
            push_decimal(&mut x, t);
            push_line(&mut d.lines, note_exec(REPORTED, src.as_str(), x.as_str()));
        }
    }
}

proof fn lemma_flights_len(es: Seq<JsonV>)
    ensures
        flights(es).1.len() == es.len(),
    decreases es.len(),
{
    if es.len() > 0 {
        lemma_flights_len(es.drop_last());
    }
}

/// The sequence diagram of a journal, and how many messages and reports it shows: at most
/// `limit`; crashes, pauses, splits and requests are always shown. The entries are the journal's
/// lines that read as JSON, in order.
pub fn diagram(entries: &Vec<Json>, limit: usize) -> (r: (String, usize))
    ensures
        (r.0@, r.1 as nat) == spec_diagram(values_view(entries@), limit as nat),
{
    let ghost es = values_view(entries@);
    let posted = posted_times(entries);
    proof {
        lemma_flights_len(es);
    }
    let mut d = Drawing { participants: Vec::new(), lines: Vec::new(), shown: 0 };
    assert(d@ == empty_diagram()) by {
        assert(strings_view(d.participants@) =~= Seq::<Seq<char>>::empty());
        assert(strings_view(d.lines@) =~= Seq::<Seq<char>>::empty());
    }
    let mut i: usize = 0;
    while i < entries.len()
        invariant
            es == values_view(entries@),
            posted@ == flights(es).1,
            posted@.len() == es.len(),
            i <= entries@.len(),
            d.shown <= limit,
            d@ == draw_entries(es.subrange(0, i as int), posted@.subrange(0, i as int), limit as nat),
        decreases entries@.len() - i,
    {
        assert(es.subrange(0, i + 1).drop_last() =~= es.subrange(0, i as int));
        assert(posted@.subrange(0, i + 1).drop_last() =~= posted@.subrange(0, i as int));
        assert(es.subrange(0, i + 1).last() == entries@[i as int]@);
        step(&mut d, &entries[i], posted[i], limit);
        i = i + 1;
    }
    assert(es.subrange(0, es.len() as int) =~= es);
    assert(posted@.subrange(0, es.len() as int) =~= posted@);
    let names = sort_names_exec(&d.participants);
    let ghost nv = strings_view(names@);
    let mut doc = text(HEADER);
    let mut j: usize = 0;
    while j < names.len()
        invariant
            nv == strings_view(names@),
            j <= names@.len(),
            doc@ == HEADER@ + participant_lines(nv.subrange(0, j as int)),
        decreases names@.len() - j,
    {
        assert(nv.subrange(0, j + 1).drop_last() =~= nv.subrange(0, j as int));
        assert(nv.subrange(0, j + 1).last() == names@[j as int]@);
        push_str(&mut doc, "    participant ");
        push_str(&mut doc, names[j].as_str());
        push_str(&mut doc, "\n");
        j = j + 1;
        assert(doc@ =~= HEADER@ + participant_lines(nv.subrange(0, j as int)));
    }
    assert(nv.subrange(0, nv.len() as int) =~= nv);
    let ghost head = doc@;
    let ghost lv = strings_view(d.lines@);
    let mut j: usize = 0;
    while j < d.lines.len()
        invariant
            lv == strings_view(d.lines@),
            j <= d.lines@.len(),
            doc@ == head + body_lines(lv.subrange(0, j as int)),
        decreases d.lines@.len() - j,
    {
        assert(lv.subrange(0, j + 1).drop_last() =~= lv.subrange(0, j as int));
        assert(lv.subrange(0, j + 1).last() == d.lines@[j as int]@);
        push_str(&mut doc, d.lines[j].as_str());
        push_str(&mut doc, "\n");
        j = j + 1;
        assert(doc@ =~= head + body_lines(lv.subrange(0, j as int)));
    }
    assert(lv.subrange(0, lv.len() as int) =~= lv);
    (doc, d.shown)
}

} // verus!
