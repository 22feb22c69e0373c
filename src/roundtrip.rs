use vstd::prelude::*;
use crate::codec::{is_space, Entity, Fault, Feed, LineAt, Mode, Slots, document_records, entities_records, entity_records, head_records, int_value, no_slots, spec_dispatch, spec_feed, spec_parse, spec_run, spec_set_slot, tail_records, unsigned_part, is_line_at, digits_value, is_digit, kept_lines, lemma_split_nonempty, records_text, record_text, split_nl, tokens, trim, trim_start};
use crate::text::{digit_char, int_text, nat_text};

verus! {

/// A number's text that the reader hands back unchanged: not empty, on one line,
/// and without white space at either end.
pub open spec fn clean(v: Seq<char>) -> bool {
    &&& v.len() > 0
    &&& trim(v) == v
    &&& forall|k: int| 0 <= k < v.len() ==> v[k] != '\n'
}

/// The tokens that the records `rs` become: each tag's text, then its value.
pub open spec fn record_tokens(rs: Seq<(int, Seq<char>)>) -> Seq<Seq<char>>
    decreases rs.len(),
{
    if rs.len() == 0 {
        Seq::empty()
    } else {
        record_tokens(rs.drop_last()) + seq![int_text(rs.last().0), rs.last().1]
    }
}

proof fn lemma_split_single(s: Seq<char>)
    requires
        forall|k: int| 0 <= k < s.len() ==> s[k] != '\n',
    ensures
        split_nl(s) == seq![s],
    decreases s.len(),
{
    if s.len() > 0 {
        lemma_split_single(s.drop_last());
        assert(s[s.len() - 1] != '\n');
        assert(s.drop_last().push(s.last()) =~= s);
        assert(seq![s.drop_last()].update(0, s.drop_last().push(s.last())) =~= seq![s]);
    } else {
        assert(s =~= Seq::<char>::empty());
    }
}

proof fn lemma_split_concat(x: Seq<char>, y: Seq<char>)
    requires
        x.len() == 0 || x.last() == '\n',
    ensures
        split_nl(x + y) == split_nl(x).drop_last() + split_nl(y),
    decreases y.len(),
{
    if y.len() == 0 {
        assert(x + y =~= x);
        if x.len() == 0 {
            assert(split_nl(x).drop_last() + split_nl(y) =~= split_nl(x));
        } else {
            assert(x.drop_last() + seq!['\n'] =~= x);
            let r = split_nl(x.drop_last());
            assert(split_nl(x) == r.push(Seq::<char>::empty()));
            assert(split_nl(x).drop_last() + split_nl(y) =~= split_nl(x));
        }
    } else {
        lemma_split_concat(x, y.drop_last());
        lemma_split_nonempty(y.drop_last());
        assert((x + y).drop_last() =~= x + y.drop_last());
        assert((x + y).last() == y.last());
        let a = split_nl(x).drop_last();
        let b = split_nl(y.drop_last());
        if y.last() == '\n' {
            assert((a + b).push(Seq::empty()) =~= a + b.push(Seq::empty()));
        } else {
            let ab = a + b;
            assert(ab.update(ab.len() - 1, ab.last().push(y.last())) =~= a + b.update(
                b.len() - 1,
                b.last().push(y.last()),
            ));
        }
    }
}

proof fn lemma_kept_concat(a: Seq<Seq<char>>, b: Seq<Seq<char>>)
    ensures
        kept_lines(a + b) == kept_lines(a) + kept_lines(b),
    decreases b.len(),
{
    if b.len() == 0 {
        assert(a + b =~= a);
        assert(kept_lines(a) + kept_lines(b) =~= kept_lines(a));
    } else {
        lemma_kept_concat(a, b.drop_last());
        assert((a + b).drop_last() =~= a + b.drop_last());
        let t = trim(b.last());
        if t.len() > 0 {
            assert((kept_lines(a) + kept_lines(b.drop_last())).push(t) =~= kept_lines(a) + kept_lines(
                b.drop_last(),
            ).push(t));
        }
    }
}

pub proof fn lemma_digit_char(d: nat)
    requires
        d < 10,
    ensures
        digit_char(d) as int - '0' as int == d,
        is_digit(digit_char(d)),
{
}

pub proof fn lemma_nat_text(n: nat)
    ensures
        nat_text(n).len() > 0,
        forall|k: int| 0 <= k < nat_text(n).len() ==> is_digit(#[trigger] nat_text(n)[k]),
        digits_value(nat_text(n)) == n,
    decreases n,
{
    if n < 10 {
        lemma_digit_char(n);
        let s = nat_text(n);
        assert(s =~= seq![digit_char(n)]);
        assert(s.drop_last() =~= Seq::<char>::empty());
        assert(s.last() == digit_char(n));
        assert(digits_value(s.drop_last()) == 0);
    } else {
        lemma_nat_text(n / 10);
        lemma_digit_char(n % 10);
        let s = nat_text(n);
        assert(s.drop_last() =~= nat_text(n / 10));
        assert(s.last() == digit_char(n % 10));
        assert(n == (n / 10) * 10 + n % 10);
    }
}

proof fn lemma_trim_word(w: Seq<char>)
    requires
        w.len() > 0,
        forall|k: int| 0 <= k < w.len() ==> is_digit(#[trigger] w[k]),
    ensures
        trim("  "@ + w) == w,
        trim(w) == w,
{
    reveal_strlit("  ");
    let s = "  "@ + w;
    assert(s.drop_first().drop_first() =~= w);
    assert(is_digit(w[0]));
    assert(is_digit(w.last()));
    assert(trim_start(s.drop_first().drop_first()) == w);
    assert(trim_start(s.drop_first()) == w);
}

proof fn lemma_records_text_end(rs: Seq<(int, Seq<char>)>)
    ensures
        records_text(rs).len() == 0 || records_text(rs).last() == '\n',
{
    if rs.len() > 0 {
        reveal_strlit("\n");
    }
}

proof fn lemma_split_ends_blank(x: Seq<char>)
    requires
        x.len() == 0 || x.last() == '\n',
    ensures
        kept_lines(split_nl(x).drop_last()) == kept_lines(split_nl(x)),
{
    lemma_split_nonempty(x);
    if x.len() > 0 {
        assert(split_nl(x) == split_nl(x.drop_last()).push(Seq::empty()));
        assert(split_nl(x).drop_last() =~= split_nl(x.drop_last()));
    }
    let l = split_nl(x);
    assert(l.last() =~= Seq::<char>::empty());
    assert(trim(l.last()) =~= Seq::<char>::empty());
}

/// The records' values are clean and their tags are not negative.
pub open spec fn records_ok(rs: Seq<(int, Seq<char>)>) -> bool {
    forall|k: int| 0 <= k < rs.len() ==> 0 <= (#[trigger] rs[k]).0 && clean(rs[k].1)
}

/// Reading the text of records gives back, token by token, each tag's text and its value.
pub proof fn lemma_tokens_of_records(rs: Seq<(int, Seq<char>)>)
    requires
        records_ok(rs),
    ensures
        tokens(records_text(rs)) == record_tokens(rs),
    decreases rs.len(),
{
    if rs.len() == 0 {
        let e = Seq::<char>::empty();
        assert(trim_start(e) == e);
        assert(trim(e) == e);
        assert(records_text(rs) == e);
        assert(split_nl(e) == seq![e]);
        assert(seq![e].drop_last() =~= Seq::<Seq<char>>::empty());
        assert(kept_lines(seq![e]) == kept_lines(Seq::<Seq<char>>::empty()));
        assert(record_tokens(rs) =~= Seq::<Seq<char>>::empty());
    } else {
        let pre = rs.drop_last();
        assert(records_ok(pre)) by {
            assert forall|k: int| 0 <= k < pre.len() implies 0 <= (#[trigger] pre[k]).0 && clean(pre[k].1) by {
                assert(pre[k] == rs[k]);
            }
        }
        lemma_tokens_of_records(pre);
        let (t, v) = rs.last();
        assert(rs[rs.len() - 1] == rs.last());
        reveal_strlit("  ");
        reveal_strlit("\n");
        let w = int_text(t);
        lemma_nat_text(t as nat);
        assert(w == nat_text(t as nat));
        let p = "  "@ + w;
        let x = p + "\n"@;
        let z = v + "\n"@;
        let y = record_text(t, v);
        assert(y =~= x + z);
        let r0 = records_text(pre);
        lemma_records_text_end(pre);
        lemma_split_concat(r0, y);
        lemma_split_concat(x, z);
        assert(forall|k: int| 0 <= k < p.len() ==> p[k] != '\n') by {
            assert forall|k: int| 0 <= k < p.len() implies p[k] != '\n' by {
                if k >= 2 {
                    assert(is_digit(w[k - 2]));
                }
            }
        }
        lemma_split_single(p);
        assert(x.drop_last() =~= p);
        assert(split_nl(x) == seq![p].push(Seq::<char>::empty()));
        lemma_split_single(v);
        assert(z.drop_last() =~= v);
        assert(split_nl(z) == seq![v].push(Seq::<char>::empty()));
        let sy = seq![p, v, Seq::<char>::empty()];
        assert(split_nl(y) =~= sy);
        lemma_kept_concat(split_nl(r0).drop_last(), sy);
        lemma_split_ends_blank(r0);
        lemma_trim_word(w);
        assert(trim(Seq::<char>::empty()) =~= Seq::<char>::empty());
        assert(sy.drop_last().drop_last().drop_last() =~= Seq::<Seq<char>>::empty());
        assert(sy.drop_last().drop_last() =~= seq![p]);
        assert(sy.drop_last() =~= seq![p, v]);
        assert(seq![p].drop_last() =~= Seq::<Seq<char>>::empty());
        assert(seq![p].last() == p);
        assert(trim(p) == w);
        assert(w.len() > 0);
        assert(kept_lines(Seq::<Seq<char>>::empty()) == Seq::<Seq<char>>::empty());
        assert(kept_lines(seq![p]) == kept_lines(Seq::<Seq<char>>::empty()).push(w));
        assert(kept_lines(seq![p]) =~= seq![w]);
        assert(kept_lines(seq![p, v]) =~= seq![w, v]);
        assert(kept_lines(sy) =~= seq![w, v]);
    }
}

proof fn lemma_record_tokens_at(rs: Seq<(int, Seq<char>)>)
    ensures
        record_tokens(rs).len() == 2 * rs.len(),
        forall|j: int|
            0 <= j < rs.len() ==> record_tokens(rs)[2 * j] == int_text((#[trigger] rs[j]).0) && record_tokens(rs)[2
                * j + 1] == rs[j].1,
    decreases rs.len(),
{
    if rs.len() > 0 {
        lemma_record_tokens_at(rs.drop_last());
        assert forall|j: int| 0 <= j < rs.len() implies record_tokens(rs)[2 * j] == int_text((#[trigger] rs[j]).0)
            && record_tokens(rs)[2 * j + 1] == rs[j].1 by {
            if j < rs.len() - 1 {
                assert(rs.drop_last()[j] == rs[j]);
            }
        }
    }
}

/// Each of the entity's numbers is clean.
pub open spec fn entity_clean(e: Entity) -> bool {
    match e {
        Entity::Line { x1, y1, x2, y2 } => clean(x1@) && clean(y1@) && clean(x2@) && clean(y2@),
        Entity::Arc { cx, cy, radius, start_angle, end_angle } => clean(cx@) && clean(cy@) && clean(radius@)
            && clean(start_angle@) && clean(end_angle@),
        Entity::Circle { cx, cy, radius } => clean(cx@) && clean(cy@) && clean(radius@),
    }
}

proof fn lemma_entities_records_at(es: Seq<Entity>)
    requires
        forall|k: int| 0 <= k < es.len() ==> (#[trigger] es[k]) is Line,
    ensures
        entities_records(es).len() == 6 * es.len(),
        forall|k: int, i: int|
            0 <= k < es.len() && 0 <= i < 6 ==> entities_records(es)[6 * k + i] == #[trigger] entity_records(
                es[k],
            )[i],
    decreases es.len(),
{
    if es.len() > 0 {
        let pre = es.drop_last();
        assert forall|k: int| 0 <= k < pre.len() implies (#[trigger] pre[k]) is Line by {
            assert(pre[k] == es[k]);
        }
        lemma_entities_records_at(pre);
        assert(es.last() is Line);
        assert forall|k: int, i: int|
            0 <= k < es.len() && 0 <= i < 6 implies entities_records(es)[6 * k + i] == #[trigger] entity_records(
            es[k],
        )[i] by {
            if k < es.len() - 1 {
                assert(pre[k] == es[k]);
            }
        }
    }
}

proof fn lemma_int_value_of_text(t: int)
    requires
        0 <= t <= i32::MAX,
    ensures
        int_value(int_text(t)) == Some(t),
{
    lemma_nat_text(t as nat);
    let s = nat_text(t as nat);
    assert(is_digit(s[0]));
    assert(unsigned_part(s) == s);
}

proof fn lemma_word_clean(s: Seq<char>)
    requires
        s.len() > 0,
        forall|k: int| 0 <= k < s.len() ==> ('A' <= #[trigger] s[k] <= 'Z' || '0' <= s[k] <= '9'),
    ensures
        clean(s),
{
    assert(!is_space(s[0]));
    assert(!is_space(s.last()));
    assert(trim_start(s) == s);
}

proof fn lemma_words_clean()
    ensures
        clean("SECTION"@),
        clean("BLOCKS"@),
        clean("ENDSEC"@),
        clean("ENTITIES"@),
        clean("OBJECTS"@),
        clean("DICTIONARY"@),
        clean("EOF"@),
        clean("LINE"@),
        clean("ARC"@),
        clean("CIRCLE"@),
        clean("0"@),
{
    reveal_strlit("SECTION");
    reveal_strlit("BLOCKS");
    reveal_strlit("ENDSEC");
    reveal_strlit("ENTITIES");
    reveal_strlit("OBJECTS");
    reveal_strlit("DICTIONARY");
    reveal_strlit("EOF");
    reveal_strlit("LINE");
    reveal_strlit("ARC");
    reveal_strlit("CIRCLE");
    reveal_strlit("0");
    lemma_word_clean("SECTION"@);
    lemma_word_clean("BLOCKS"@);
    lemma_word_clean("ENDSEC"@);
    lemma_word_clean("ENTITIES"@);
    lemma_word_clean("OBJECTS"@);
    lemma_word_clean("DICTIONARY"@);
    lemma_word_clean("EOF"@);
    lemma_word_clean("LINE"@);
    lemma_word_clean("ARC"@);
    lemma_word_clean("CIRCLE"@);
    lemma_word_clean("0"@);
}

proof fn lemma_entity_records_ok(e: Entity)
    requires
        entity_clean(e),
    ensures
        records_ok(entity_records(e)),
{
    lemma_words_clean();
}

proof fn lemma_concat_ok(a: Seq<(int, Seq<char>)>, b: Seq<(int, Seq<char>)>)
    requires
        records_ok(a),
        records_ok(b),
    ensures
        records_ok(a + b),
{
    assert forall|k: int| 0 <= k < (a + b).len() implies 0 <= (#[trigger] (a + b)[k]).0 && clean((a + b)[k].1) by {
        if k < a.len() {
            assert((a + b)[k] == a[k]);
        } else {
            assert((a + b)[k] == b[k - a.len()]);
        }
    }
}

proof fn lemma_entities_ok(es: Seq<Entity>)
    requires
        forall|k: int| 0 <= k < es.len() ==> entity_clean(#[trigger] es[k]),
    ensures
        records_ok(entities_records(es)),
    decreases es.len(),
{
    if es.len() > 0 {
        let pre = es.drop_last();
        assert forall|k: int| 0 <= k < pre.len() implies entity_clean(#[trigger] pre[k]) by {
            assert(pre[k] == es[k]);
        }
        lemma_entities_ok(pre);
        assert(entity_clean(es[es.len() - 1]));
        lemma_entity_records_ok(es.last());
        lemma_concat_ok(entities_records(pre), entity_records(es.last()));
    }
}

proof fn lemma_document_ok(es: Seq<Entity>)
    requires
        forall|k: int| 0 <= k < es.len() ==> entity_clean(#[trigger] es[k]),
    ensures
        records_ok(document_records(es)),
{
    lemma_words_clean();
    lemma_entities_ok(es);
    assert(records_ok(head_records()));
    assert(records_ok(tail_records()));
    lemma_concat_ok(head_records(), entities_records(es));
    lemma_concat_ok(head_records() + entities_records(es), tail_records());
}

/// The token positions of the coordinates of the `k`-th `LINE` of a written document.
pub open spec fn line_at(k: int) -> LineAt {
    LineAt {
        x1: (2 * (5 + 6 * k + 2) + 1) as usize,
        y1: (2 * (5 + 6 * k + 3) + 1) as usize,
        x2: (2 * (5 + 6 * k + 4) + 1) as usize,
        y2: (2 * (5 + 6 * k + 5) + 1) as usize,
    }
}

pub open spec fn lines_at(n: int) -> Seq<LineAt> {
    Seq::new(n as nat, |k: int| line_at(k))
}

spec fn mode_at(k: int) -> Mode {
    if k == 0 {
        Mode::Dispatch
    } else {
        Mode::InLine
    }
}

spec fn slots_at(k: int) -> Slots {
    if k == 0 {
        no_slots()
    } else {
        let q = line_at(k - 1);
        Slots { x1: Some(q.x1), y1: Some(q.y1), x2: Some(q.x2), y2: Some(q.y2) }
    }
}

spec fn out_at(k: int) -> Seq<LineAt> {
    if k == 0 {
        Seq::empty()
    } else {
        lines_at(k - 1)
    }
}

spec fn emitted(out: Seq<LineAt>, emit: Option<LineAt>) -> Seq<LineAt> {
    match emit {
        Some(q) => out.push(q),
        None => out,
    }
}

proof fn lemma_step(rs: Seq<(int, Seq<char>)>, j: int, mode: Mode, slots: Slots, out: Seq<LineAt>)
    requires
        0 <= j < rs.len(),
        0 <= rs[j].0 <= 100,
    ensures
        ({
            let toks = record_tokens(rs);
            let f = spec_feed(mode, slots, rs[j].0, (2 * j + 1) as usize, rs[j].1);
            &&& (f matches Feed::Go { mode: m2, slots: s2, emit } ==> spec_run(toks, 2 * j, mode, slots, out)
                == spec_run(toks, 2 * j + 2, m2, s2, emitted(out, emit)))
            &&& (f is Halt ==> spec_run(toks, 2 * j, mode, slots, out) == Ok::<Seq<LineAt>, Fault>(out))
            &&& (f matches Feed::Fail(e) ==> spec_run(toks, 2 * j, mode, slots, out) == Err::<Seq<LineAt>, Fault>(e))
        }),
{
    lemma_record_tokens_at(rs);
    lemma_int_value_of_text(rs[j].0);
    let toks = record_tokens(rs);
    assert(toks[2 * j] == int_text(rs[j].0));
    assert(toks[2 * j + 1] == rs[j].1);
}

/// Records `0..5` of `rs` open the document, and records `5 + 6 * j..` stand for the
/// `LINE` `es[j]`, for each `j < m`.
spec fn layout(rs: Seq<(int, Seq<char>)>, es: Seq<Entity>, m: int) -> bool {
    &&& 0 <= m <= es.len()
    &&& rs.len() >= 5 + 6 * m
    &&& forall|i: int| 0 <= i < 5 ==> rs[i] == #[trigger] head_records()[i]
    &&& forall|j: int| 0 <= j < m ==> (#[trigger] es[j]) is Line
    &&& forall|j: int, i: int| 0 <= j < m && 0 <= i < 6 ==> rs[5 + 6 * j + i] == #[trigger] entity_records(es[j])[i]
}

proof fn lemma_run_head(rs: Seq<(int, Seq<char>)>, es: Seq<Entity>)
    requires
        layout(rs, es, 0),
    ensures
        spec_run(record_tokens(rs), 0, Mode::Outside, no_slots(), Seq::empty()) == spec_run(
            record_tokens(rs),
            10,
            Mode::Dispatch,
            no_slots(),
            Seq::empty(),
        ),
{
    reveal_strlit("SECTION");
    reveal_strlit("BLOCKS");
    reveal_strlit("ENDSEC");
    reveal_strlit("ENTITIES");
    reveal_strlit("EOF");
    let h = head_records();
    let e = Seq::<LineAt>::empty();
    let n = no_slots();
    assert(rs[0] == h[0] && rs[1] == h[1] && rs[2] == h[2] && rs[3] == h[3] && rs[4] == h[4]);
    assert(rs[0] == (0int, "SECTION"@));
    assert(rs[1] == (2int, "BLOCKS"@));
    assert(rs[2] == (0int, "ENDSEC"@));
    assert(rs[3] == (0int, "SECTION"@));
    assert(rs[4] == (2int, "ENTITIES"@));
    let t = record_tokens(rs);
    assert("SECTION"@ != "EOF"@) by {
        assert("SECTION"@.len() != "EOF"@.len());
    }
    assert("BLOCKS"@ != "ENTITIES"@) by {
        assert("BLOCKS"@.len() != "ENTITIES"@.len());
    }
    lemma_step(rs, 0, Mode::Outside, n, e);
    assert(spec_run(t, 0, Mode::Outside, n, e) == spec_run(t, 2, Mode::Header, n, e));
    lemma_step(rs, 1, Mode::Header, n, e);
    assert(spec_run(t, 2, Mode::Header, n, e) == spec_run(t, 4, Mode::Skip, n, e));
    lemma_step(rs, 2, Mode::Skip, n, e);
    assert(spec_run(t, 4, Mode::Skip, n, e) == spec_run(t, 6, Mode::Outside, n, e));
    lemma_step(rs, 3, Mode::Outside, n, e);
    assert(spec_run(t, 6, Mode::Outside, n, e) == spec_run(t, 8, Mode::Header, n, e));
    lemma_step(rs, 4, Mode::Header, n, e);
    assert(spec_run(t, 8, Mode::Header, n, e) == spec_run(t, 10, Mode::Dispatch, n, e));
}

proof fn lemma_run_line(rs: Seq<(int, Seq<char>)>, es: Seq<Entity>, k: int)
    requires
        layout(rs, es, k + 1),
        0 <= k,
    ensures
        spec_run(record_tokens(rs), 2 * (5 + 6 * k), mode_at(k), slots_at(k), out_at(k)) == spec_run(
            record_tokens(rs),
            2 * (5 + 6 * (k + 1)),
            mode_at(k + 1),
            slots_at(k + 1),
            out_at(k + 1),
        ),
{
    reveal_strlit("LINE");
    reveal_strlit("ENDSEC");
    reveal_strlit("0");
    let b = 5 + 6 * k;
    let e = es[k];
    assert(e is Line);
    let r = entity_records(e);
    assert(rs[b] == r[0] && rs[b + 1] == r[1] && rs[b + 2] == r[2] && rs[b + 3] == r[3] && rs[b + 4] == r[4]
        && rs[b + 5] == r[5]) by {
        assert(rs[5 + 6 * k + 0] == entity_records(es[k])[0]);
        assert(rs[5 + 6 * k + 1] == entity_records(es[k])[1]);
        assert(rs[5 + 6 * k + 2] == entity_records(es[k])[2]);
        assert(rs[5 + 6 * k + 3] == entity_records(es[k])[3]);
        assert(rs[5 + 6 * k + 4] == entity_records(es[k])[4]);
        assert(rs[5 + 6 * k + 5] == entity_records(es[k])[5]);
    }
    let q = line_at(k);
    let o = lines_at(k);
    if k > 0 {
        assert(lines_at(k - 1).push(line_at(k - 1)) =~= o);
    } else {
        assert(o =~= Seq::<LineAt>::empty());
    }
    let n = no_slots();
    lemma_step(rs, b, mode_at(k), slots_at(k), out_at(k));
    lemma_step(rs, b + 1, Mode::InLine, n, o);
    lemma_step(rs, b + 2, Mode::InLine, n, o);
    let s1 = Slots { x1: Some(q.x1), ..n };
    lemma_step(rs, b + 3, Mode::InLine, s1, o);
    let s2 = Slots { y1: Some(q.y1), ..s1 };
    lemma_step(rs, b + 4, Mode::InLine, s2, o);
    let s3 = Slots { x2: Some(q.x2), ..s2 };
    lemma_step(rs, b + 5, Mode::InLine, s3, o);
    assert(out_at(k + 1) == o);
}

proof fn lemma_run_prefix(rs: Seq<(int, Seq<char>)>, es: Seq<Entity>, m: int)
    requires
        layout(rs, es, m),
    ensures
        spec_run(record_tokens(rs), 0, Mode::Outside, no_slots(), Seq::empty()) == spec_run(
            record_tokens(rs),
            2 * (5 + 6 * m),
            mode_at(m),
            slots_at(m),
            out_at(m),
        ),
    decreases m,
{
    if m == 0 {
        lemma_run_head(rs, es);
    } else {
        assert(layout(rs, es, m - 1));
        lemma_run_prefix(rs, es, m - 1);
        lemma_run_line(rs, es, m - 1);
    }
}

proof fn lemma_entities_concat(a: Seq<Entity>, b: Seq<Entity>)
    ensures
        entities_records(a + b) == entities_records(a) + entities_records(b),
    decreases b.len(),
{
    if b.len() == 0 {
        assert(a + b =~= a);
        assert(entities_records(a) + entities_records(b) =~= entities_records(a));
    } else {
        lemma_entities_concat(a, b.drop_last());
        assert((a + b).drop_last() =~= a + b.drop_last());
        assert((a + b).last() == b.last());
        assert(entities_records(a) + entities_records(b.drop_last()) + entity_records(b.last())
            =~= entities_records(a) + (entities_records(b.drop_last()) + entity_records(b.last())));
    }
}

proof fn lemma_layout(es: Seq<Entity>, m: int)
    requires
        0 <= m <= es.len(),
        forall|j: int| 0 <= j < m ==> (#[trigger] es[j]) is Line,
    ensures
        layout(document_records(es), es, m),
        m < es.len() ==> document_records(es).len() > 5 + 6 * m && document_records(es)[5 + 6 * m]
            == entity_records(es[m])[0],
        m == es.len() ==> document_records(es).len() == 11 + 6 * m && forall|i: int|
            0 <= i < 6 ==> document_records(es)[5 + 6 * m + i] == #[trigger] tail_records()[i],
{
    let rs = document_records(es);
    let pre = es.take(m);
    let post = es.skip(m);
    assert(es =~= pre + post);
    lemma_entities_concat(pre, post);
    assert forall|j: int| 0 <= j < pre.len() implies (#[trigger] pre[j]) is Line by {
        assert(pre[j] == es[j]);
    }
    lemma_entities_records_at(pre);
    let h = head_records();
    let ents = entities_records(es);
    let t = tail_records();
    assert(rs == h + ents + t);
    assert(h.len() == 5);
    assert(t.len() == 6);
    assert forall|i: int| 0 <= i < 5 implies rs[i] == #[trigger] head_records()[i] by {
        assert((h + ents)[i] == h[i]);
    }
    assert forall|j: int, i: int| 0 <= j < m && 0 <= i < 6 implies rs[5 + 6 * j + i] == #[trigger] entity_records(
        es[j],
    )[i] by {
        assert(pre[j] == es[j]);
        assert(entities_records(pre)[6 * j + i] == entity_records(pre[j])[i]);
        assert(ents[6 * j + i] == entities_records(pre)[6 * j + i]);
        assert((h + ents)[5 + 6 * j + i] == ents[6 * j + i]);
    }
    if m < es.len() {
        let first = seq![es[m]];
        assert(post =~= first + post.skip(1));
        lemma_entities_concat(first, post.skip(1));
        assert(first.drop_last() =~= Seq::<Entity>::empty());
        assert(first.last() == es[m]);
        assert(entities_records(Seq::<Entity>::empty()) == Seq::<(int, Seq<char>)>::empty());
        assert(entities_records(first) =~= entity_records(es[m]));
        assert(entity_records(es[m]).len() > 0);
        assert(entities_records(post).len() > 0);
        assert(ents.len() > 6 * m);
        assert(ents[6 * m] == entities_records(post)[0]);
        assert((h + ents)[5 + 6 * m] == ents[6 * m]);
    } else {
        assert(post =~= Seq::<Entity>::empty());
        assert(ents.len() == 6 * m);
        assert forall|i: int| 0 <= i < 6 implies rs[5 + 6 * m + i] == #[trigger] tail_records()[i] by {
        }
    }
}

proof fn lemma_run_tail(rs: Seq<(int, Seq<char>)>, es: Seq<Entity>)
    requires
        layout(rs, es, es.len() as int),
        rs.len() == 11 + 6 * es.len(),
        forall|i: int| 0 <= i < 6 ==> rs[5 + 6 * es.len() + i] == #[trigger] tail_records()[i],
    ensures
        spec_run(
            record_tokens(rs),
            2 * (5 + 6 * es.len() as int),
            mode_at(es.len() as int),
            slots_at(es.len() as int),
            out_at(es.len() as int),
        ) == Ok::<Seq<LineAt>, Fault>(lines_at(es.len() as int)),
{
    let n = es.len() as int;
    reveal_strlit("SECTION");
    reveal_strlit("OBJECTS");
    reveal_strlit("DICTIONARY");
    reveal_strlit("ENDSEC");
    reveal_strlit("ENTITIES");
    reveal_strlit("EOF");
    reveal_strlit("LINE");
    let t = tail_records();
    let b = 5 + 6 * n;
    assert(rs[b] == t[0] && rs[b + 1] == t[1] && rs[b + 2] == t[2] && rs[b + 3] == t[3] && rs[b + 4] == t[4]
        && rs[b + 5] == t[5]);
    assert("SECTION"@ != "EOF"@) by {
        assert("SECTION"@.len() != "EOF"@.len());
    }
    assert("OBJECTS"@ != "ENTITIES"@) by {
        assert("OBJECTS"@.len() != "ENTITIES"@.len());
    }
    assert("DICTIONARY"@ != "ENDSEC"@) by {
        assert("DICTIONARY"@.len() != "ENDSEC"@.len());
    }
    assert("ENDSEC"@ != "LINE"@) by {
        assert("ENDSEC"@.len() != "LINE"@.len());
    }
    let all = lines_at(n);
    if n > 0 {
        assert(lines_at(n - 1).push(line_at(n - 1)) =~= all);
    } else {
        assert(all =~= Seq::<LineAt>::empty());
    }
    let s0 = no_slots();
    let tk = record_tokens(rs);
    lemma_step(rs, b, mode_at(n), slots_at(n), out_at(n));
    assert(spec_run(tk, 2 * b, mode_at(n), slots_at(n), out_at(n)) == spec_run(tk, 2 * b + 2, Mode::Outside, s0, all));
    lemma_step(rs, b + 1, Mode::Outside, s0, all);
    lemma_step(rs, b + 2, Mode::Header, s0, all);
    lemma_step(rs, b + 3, Mode::Skip, s0, all);
    lemma_step(rs, b + 4, Mode::Skip, s0, all);
    lemma_step(rs, b + 5, Mode::Outside, s0, all);
}

proof fn lemma_lines_read_back(es: Seq<Entity>, k: int)
    requires
        layout(document_records(es), es, es.len() as int),
        0 <= k < es.len(),
        12 * es.len() + 22 <= usize::MAX,
    ensures
        is_line_at(es[k], record_tokens(document_records(es)), lines_at(es.len() as int)[k]),
{
    let rs = document_records(es);
    lemma_record_tokens_at(rs);
    let c = 5 + 6 * k;
    assert(rs[5 + 6 * k + 2] == entity_records(es[k])[2]);
    assert(rs[5 + 6 * k + 3] == entity_records(es[k])[3]);
    assert(rs[5 + 6 * k + 4] == entity_records(es[k])[4]);
    assert(rs[5 + 6 * k + 5] == entity_records(es[k])[5]);
    assert(es[k] is Line);
    let tk = record_tokens(rs);
    assert(lines_at(es.len() as int)[k] == line_at(k));
    assert(tk[2 * (c + 2) + 1] == rs[c + 2].1);
    assert(tk[2 * (c + 3) + 1] == rs[c + 3].1);
    assert(tk[2 * (c + 4) + 1] == rs[c + 4].1);
    assert(tk[2 * (c + 5) + 1] == rs[c + 5].1);
}

/// Writing a drawing of `LINE`s whose numbers are clean, then reading the text
/// back, gives the same `LINE`s in the same order, number for number.
pub proof fn lemma_round_trip(es: Seq<Entity>)
    requires
        forall|k: int| 0 <= k < es.len() ==> (#[trigger] es[k]) is Line && entity_clean(es[k]),
        12 * es.len() + 22 <= usize::MAX,
    ensures
        spec_parse(records_text(document_records(es))) == Ok::<Seq<LineAt>, Fault>(lines_at(es.len() as int)),
        forall|k: int|
            0 <= k < es.len() ==> is_line_at(
                #[trigger] es[k],
                tokens(records_text(document_records(es))),
                lines_at(es.len() as int)[k],
            ),
{
    let n = es.len() as int;
    let rs = document_records(es);
    lemma_layout(es, n);
    lemma_document_ok(es);
    lemma_tokens_of_records(rs);
    lemma_run_prefix(rs, es, n);
    lemma_run_tail(rs, es);
    assert forall|k: int| 0 <= k < es.len() implies is_line_at(
        #[trigger] es[k],
        tokens(records_text(document_records(es))),
        lines_at(es.len() as int)[k],
    ) by {
        lemma_lines_read_back(es, k);
    }
}

proof fn lemma_first_other(es: Seq<Entity>, k: int) -> (m: int)
    requires
        0 <= k < es.len(),
        !(es[k] is Line),
    ensures
        0 <= m <= k,
        !(es[m] is Line),
        forall|j: int| 0 <= j < m ==> (#[trigger] es[j]) is Line,
    decreases k,
{
    if forall|j: int| 0 <= j < k ==> (#[trigger] es[j]) is Line {
        k
    } else {
        let j = choose|j: int| 0 <= j < k && !((#[trigger] es[j]) is Line);
        lemma_first_other(es, j)
    }
}

/// A document written from a drawing that holds an `ARC` or a `CIRCLE` is refused
/// by the reader: what the welder wrote cannot be fed back to it.
pub proof fn lemma_welded_refused(es: Seq<Entity>, k: int)
    requires
        0 <= k < es.len(),
        !(es[k] is Line),
        forall|j: int| 0 <= j < es.len() ==> entity_clean(#[trigger] es[j]),
    ensures
        spec_parse(records_text(document_records(es))) is Err,
{
    let m = lemma_first_other(es, k);
    let rs = document_records(es);
    lemma_layout(es, m);
    lemma_document_ok(es);
    lemma_tokens_of_records(rs);
    lemma_run_prefix(rs, es, m);
    reveal_strlit("ARC");
    reveal_strlit("CIRCLE");
    reveal_strlit("LINE");
    reveal_strlit("ENDSEC");
    let b = 5 + 6 * m;
    assert(rs[b] == entity_records(es[m])[0]);
    assert(rs[b] == (0int, "ARC"@) || rs[b] == (0int, "CIRCLE"@));
    assert("ARC"@ != "LINE"@ && "ARC"@ != "ENDSEC"@) by {
        assert("ARC"@.len() == 3);
    }
    assert("CIRCLE"@ != "LINE"@ && "CIRCLE"@ != "ENDSEC"@) by {
        assert("CIRCLE"@.len() == 6);
        assert("CIRCLE"@[0] != "ENDSEC"@[0]);
    }
    lemma_step(rs, b, mode_at(m), slots_at(m), out_at(m));
}

} // verus!
