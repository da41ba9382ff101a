//! The entity state machine: records are collected into the field table of
//! the open entity until a code-0 record closes it.
use vstd::prelude::*;
use crate::codes::{EntityKind, Pair, classify, kind_of, pair_lines, pairs_from, texts, code_of};
use crate::fields::FieldTable;
use crate::geometry::{
    Entity,
    face_vertices,
    line_of,
    parse_3dface,
    parse_line,
    parse_point,
    point_of,
};

verus! {

/// A record with its value resolved: the group code, the value's text, and
/// the number that the value line reads as.
pub type Event<V> = (i32, Seq<char>, V);

/// The state of the machine: the kind of the open entity and its fields.
pub type State<V> = (EntityKind, Map<int, V>);

/// The state before the first record.
pub open spec fn start_state<V>() -> State<V> {
    (EntityKind::Other, Map::empty())
}

/// The records of the lines, each with its value's text and number.
pub open spec fn events_of<V>(lines: Seq<Seq<char>>, numbers: Seq<V>) -> Seq<Event<V>> {
    pairs_from(lines, 0).map_values(
        |p: Pair| (p.code, lines[p.value_line as int], numbers[p.value_line as int]),
    )
}

/// The state after one record: a code-0 record opens a new entity of the type
/// it names, with no fields; any other stores its number under its code.
pub open spec fn advance<V>(s: State<V>, e: Event<V>) -> State<V> {
    if e.0 == 0 {
        (kind_of(e.1), Map::empty())
    } else {
        (s.0, s.1.insert(e.0 as int, e.2))
    }
}

/// The entity that one record closes and that is decoded: the open one, when
/// the record has code 0 and the open entity is of a decoded kind.
pub open spec fn closes<V>(s: State<V>, e: Event<V>) -> Seq<State<V>> {
    if e.0 == 0 && s.0 != EntityKind::Other {
        seq![s]
    } else {
        Seq::empty()
    }
}

/// The entities that the records close, in order, each with its kind and
/// fields; the entity left open at the end is not among them.
pub open spec fn spans<V>(events: Seq<Event<V>>, s: State<V>) -> Seq<State<V>>
    decreases events.len(),
{
    if events.len() == 0 {
        Seq::empty()
    } else {
        closes(s, events[0]) + spans(events.drop_first(), advance(s, events[0]))
    }
}

/// The state after a run of records.
pub open spec fn after<V>(events: Seq<Event<V>>, s: State<V>) -> State<V>
    decreases events.len(),
{
    if events.len() == 0 {
        s
    } else {
        after(events.drop_first(), advance(s, events[0]))
    }
}

/// `e` is the record that the decoder of its kind makes of the fields.
pub open spec fn decodes<V>(e: Entity<V>, s: State<V>, absent: V) -> bool {
    match s.0 {
        EntityKind::Point => e == Entity::Point(point_of(s.1, absent)),
        EntityKind::Line => e == Entity::Line(line_of(s.1, absent)),
        EntityKind::Face => match e {
            Entity::Face(f) => f.points@ == face_vertices(s.1, absent),
            _ => false,
        },
        EntityKind::Other => false,
    }
}

/// `out` holds, in order, the decoding of each closed entity.
pub open spec fn decodes_all<V>(out: Seq<Entity<V>>, closed: Seq<State<V>>, absent: V) -> bool {
    out.len() == closed.len() && forall|i: int|
        0 <= i < out.len() ==> #[trigger] decodes(out[i], closed[i], absent)
}

/// Every record's value line lies within the lines.
pub proof fn lemma_pairs_in_bounds(lines: Seq<Seq<char>>, i: int)
    requires
        lines.len() <= usize::MAX,
    ensures
        forall|j: int|
            0 <= j < pairs_from(lines, i).len() ==> #[trigger] pairs_from(lines, i)[j].value_line
                < lines.len(),
    decreases lines.len() - i,
{
    if 0 <= i < lines.len() {
        match code_of(lines[i]) {
            None => {
                lemma_pairs_in_bounds(lines, i + 1);
                assert(pairs_from(lines, i) == pairs_from(lines, i + 1));
            },
            Some(c) => if i + 1 < lines.len() {
                lemma_pairs_in_bounds(lines, i + 2);
                let head = Pair { code: c, value_line: (i + 1) as usize };
                assert(pairs_from(lines, i) == seq![head] + pairs_from(lines, i + 2));
                assert forall|j: int| 0 <= j < pairs_from(lines, i).len() implies #[trigger] pairs_from(
                    lines,
                    i,
                )[j].value_line < lines.len() by {
                    if j > 0 {
                        assert(pairs_from(lines, i)[j] == pairs_from(lines, i + 2)[j - 1]);
                    } else {
                        assert(pairs_from(lines, i)[j] == head);
                    }
                }
            },
        }
    }
}

/// Reads entities out of (group code, value) records.
pub struct DXFParser<V> {
    kind: EntityKind,
    fields: FieldTable<V>,
    absent: V,
}

impl<V: Copy> DXFParser<V> {
    /// The kind and fields of the open entity.
    pub closed spec fn state(&self) -> State<V> {
        (self.kind, self.fields@)
    }

    /// The value that an absent field reads as.
    pub closed spec fn absent(&self) -> V {
        self.absent
    }

    /// A parser before the first record; absent fields will read as `absent`.
    pub fn new(absent: V) -> (p: Self)
        ensures
            p.state() == start_state::<V>(),
            p.absent() == absent,
    {
        DXFParser { kind: EntityKind::Other, fields: FieldTable::new(), absent }
    }

    /// Decodes the open entity, if it is of a decoded kind.
    fn finish(&self) -> (r: Option<Entity<V>>)
        ensures
            match r {
                Some(e) => self.kind != EntityKind::Other && decodes(e, self.state(), self.absent),
                None => self.kind == EntityKind::Other,
            },
    {
        match self.kind {
            EntityKind::Point => Some(Entity::Point(parse_point(&self.fields, self.absent))),
            EntityKind::Line => Some(Entity::Line(parse_line(&self.fields, self.absent))),
            EntityKind::Face => Some(Entity::Face(parse_3dface(&self.fields, self.absent))),
            EntityKind::Other => None,
        }
    }

    /// Takes one record: its code, its value's text, and the number that the
    /// value reads as. Returns the entity that the record closes, if it is
    /// decoded.
    pub fn step(&mut self, code: i32, value: &str, number: V) -> (r: Option<Entity<V>>)
        ensures
            final(self).state() == advance(old(self).state(), (code, value@, number)),
            final(self).absent() == old(self).absent(),
            r.is_some() == (code == 0 && old(self).state().0 != EntityKind::Other),
            r matches Some(e) ==> decodes(e, old(self).state(), old(self).absent()),
    {
        if code == 0 {
            let r = self.finish();
            self.kind = classify(value);
            self.fields.clear();
            r
        } else {
            self.fields.set(code, number);
            None
        }
    }
}

/// Decodes the entities of a drawing. `lines` are its lines in order, and
/// `numbers[i]` is the number that line `i` reads as; absent fields read as
/// `absent`. The result holds one entity for each closed POINT, LINE or
/// 3DFACE, in order.
pub fn parse_lines<V: Copy>(lines: &Vec<String>, numbers: &Vec<V>, absent: V) -> (r: Vec<
    Entity<V>,
>)
    requires
        numbers.len() == lines.len(),
    ensures
        decodes_all(r@, spans(events_of(texts(lines@), numbers@), start_state()), absent),
{
    let ghost all = texts(lines@);
    let ghost evs = events_of(all, numbers@);
    let ghost whole = spans(evs, start_state());
    let pairs = pair_lines(lines);
    proof {
        lemma_pairs_in_bounds(all, 0);
    }
    let mut parser = DXFParser::new(absent);
    let mut out: Vec<Entity<V>> = Vec::new();
    let ghost mut done: Seq<State<V>> = Seq::empty();
    let n = pairs.len();
    let mut k: usize = 0;
    assert(evs.subrange(0, n as int) =~= evs);
    while k < n
        invariant
            k <= n,
            n == pairs@.len(),
            pairs@ == pairs_from(all, 0),
            all == texts(lines@),
            all.len() == lines@.len(),
            numbers@.len() == lines@.len(),
            evs == events_of(all, numbers@),
            evs.len() == n,
            forall|j: int| 0 <= j < n ==> #[trigger] pairs@[j].value_line < lines@.len(),
            parser.absent() == absent,
            whole == spans(evs, start_state()),
            whole == done + spans(evs.subrange(k as int, n as int), parser.state()),
            decodes_all(out@, done, absent),
        decreases n - k,
    {
        let p = pairs[k];
        let text = lines[p.value_line].as_str();
        let number = numbers[p.value_line];
        let ghost before = parser.state();
        let ghost rest = evs.subrange(k as int, n as int);
        assert(all[p.value_line as int] == lines@[p.value_line as int]@);
        assert(evs[k as int] == (p.code, text@, number));
        assert(rest[0] == evs[k as int]);
        assert(rest.drop_first() =~= evs.subrange(k + 1, n as int));
        let r = parser.step(p.code, text, number);
        match r {
            Some(e) => {
                proof {
                    assert(done.push(before) + spans(evs.subrange(k + 1, n as int), parser.state())
                        =~= done + (seq![before] + spans(
                        evs.subrange(k + 1, n as int),
                        parser.state(),
                    )));
                    done = done.push(before);
                }
                out.push(e);
                assert forall|i: int| 0 <= i < out@.len() implies #[trigger] decodes(
                    out@[i],
                    done[i],
                    absent,
                ) by {
                    if i < out@.len() - 1 {
                        assert(decodes(out@.drop_last()[i], done.drop_last()[i], absent));
                    }
                }
            },
            None => {
                assert(Seq::<State<V>>::empty() + spans(
                    evs.subrange(k + 1, n as int),
                    parser.state(),
                ) =~= spans(evs.subrange(k + 1, n as int), parser.state()));
            },
        }
        k = k + 1;
    }
    assert(done + Seq::<State<V>>::empty() =~= done);
    out
}

/// The kinds that the code-0 records name, in order.
pub open spec fn boundary_kinds<V>(events: Seq<Event<V>>) -> Seq<EntityKind>
    decreases events.len(),
{
    if events.len() == 0 {
        Seq::empty()
    } else if events[0].0 == 0 {
        seq![kind_of(events[0].1)] + boundary_kinds(events.drop_first())
    } else {
        boundary_kinds(events.drop_first())
    }
}

/// How many of `kinds`, the last one left out, are decoded kinds.
pub open spec fn closed_known(kinds: Seq<EntityKind>) -> nat
    decreases kinds.len(),
{
    if kinds.len() <= 1 {
        0
    } else {
        (if kinds[0] != EntityKind::Other {
            1nat
        } else {
            0nat
        }) + closed_known(kinds.drop_first())
    }
}

proof fn lemma_spans_count<V>(events: Seq<Event<V>>, s: State<V>)
    ensures
        spans(events, s).len() == closed_known(seq![s.0] + boundary_kinds(events)),
    decreases events.len(),
{
    if events.len() > 0 {
        let e = events[0];
        let rest = events.drop_first();
        let next = advance(s, e);
        lemma_spans_count(rest, next);
        if e.0 == 0 {
            let ks = seq![s.0] + (seq![kind_of(e.1)] + boundary_kinds(rest));
            assert(ks.drop_first() =~= seq![next.0] + boundary_kinds(rest));
            assert(seq![s.0] + boundary_kinds(events) == ks);
        }
    }
}

/// One entity comes out for each code-0 record that closes an entity of a
/// decoded kind: for each name of a code-0 record, but the last, that is
/// POINT, LINE or 3DFACE. The entity that the last one opens stays open.
pub proof fn lemma_one_entity_per_closed_boundary<V>(lines: Seq<Seq<char>>, numbers: Seq<V>)
    ensures
        spans(events_of(lines, numbers), start_state()).len() == closed_known(
            seq![EntityKind::Other] + boundary_kinds(events_of(lines, numbers)),
        ),
{
    lemma_spans_count(events_of(lines, numbers), start_state::<V>());
}

proof fn lemma_run_concat<V>(a: Seq<Event<V>>, b: Seq<Event<V>>, s: State<V>)
    ensures
        after(a + b, s) == after(b, after(a, s)),
        spans(a + b, s) == spans(a, s) + spans(b, after(a, s)),
    decreases a.len(),
{
    if a.len() == 0 {
        assert(a + b =~= b);
        assert(Seq::<State<V>>::empty() + spans(b, s) =~= spans(b, s));
    } else {
        let next = advance(s, a[0]);
        lemma_run_concat(a.drop_first(), b, next);
        assert((a + b).drop_first() =~= a.drop_first() + b);
        assert((a + b)[0] == a[0]);
        assert(closes(s, a[0]) + (spans(a.drop_first(), next) + spans(b, after(a, s))) =~= (closes(
            s,
            a[0],
        ) + spans(a.drop_first(), next)) + spans(b, after(a, s)));
    }
}

proof fn lemma_no_boundary_run<V>(events: Seq<Event<V>>, s: State<V>)
    requires
        forall|i: int| 0 <= i < events.len() ==> (#[trigger] events[i]).0 != 0,
    ensures
        after(events, s).0 == s.0,
        spans(events, s) == Seq::<State<V>>::empty(),
    decreases events.len(),
{
    if events.len() > 0 {
        let rest = events.drop_first();
        assert forall|i: int| 0 <= i < rest.len() implies (#[trigger] rest[i]).0 != 0 by {
            assert(rest[i] == events[i + 1]);
        }
        lemma_no_boundary_run(rest, advance(s, events[0]));
        assert(Seq::<State<V>>::empty() + Seq::<State<V>>::empty() =~= Seq::<State<V>>::empty());
    }
}

/// When a group code occurs twice before the next boundary, the second value
/// is the one the field holds, and the one that its coordinate decodes to.
pub proof fn lemma_last_write_wins<V>(
    s: State<V>,
    first: Event<V>,
    middle: Seq<Event<V>>,
    second: Event<V>,
    absent: V,
)
    requires
        first.0 == second.0,
        first.0 != 0,
        forall|i: int| 0 <= i < middle.len() ==> (#[trigger] middle[i]).0 != 0,
    ensures
        after(seq![first] + middle + seq![second], s).0 == s.0,
        after(seq![first] + middle + seq![second], s).1[first.0 as int] == second.2,
        spans(seq![first] + middle + seq![second], s) == Seq::<State<V>>::empty(),
        first.0 == 10 ==> point_of(after(seq![first] + middle + seq![second], s).1, absent).x
            == second.2,
{
    let run = seq![first] + middle + seq![second];
    assert forall|i: int| 0 <= i < run.len() implies (#[trigger] run[i]).0 != 0 by {
        if 0 < i < run.len() - 1 {
            assert(run[i] == middle[i - 1]);
        }
    }
    lemma_no_boundary_run(run, s);
    let head = seq![first] + middle;
    assert(run == head + seq![second]);
    lemma_run_concat(head, seq![second], s);
    let mid = after(head, s);
    assert(seq![second].drop_first() =~= Seq::<Event<V>>::empty());
    assert(after(Seq::<Event<V>>::empty(), advance(mid, second)) == advance(mid, second));
    assert(after(seq![second], mid) == advance(mid, second));
}

} // verus!
