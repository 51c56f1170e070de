//! Why the ledger survives a restart: the log it writes, read back, gives the
//! ledger again, so every visitor keeps their number.

use vstd::prelude::*;

use crate::calendar::{date_text, is_day_text, local_day};
use crate::counter::{
    pilgrim_key, after_visit, apply_line, can_count, days_text, find_day, find_id, insert_pos, ledger_wf,
    lemma_find_day, lemma_find_id, lemma_insert_pos, lemma_insert_pos_bound, lemma_visit_keeps_wf,
    line_text, load_lines, load_model, log_lines, log_text, strip_cr, upsert,
    visit_prunes, visit_recorded, visitors_text, DayView, Journal, Worship, KEEP_DAYS,
};
use crate::text::{
    decimal, is_digit, lemma_decimal_digits, lemma_decimal_reads_back, lemma_lex_asymmetric,
    lemma_lex_irreflexive, lemma_split_on_after_sep, lemma_split_on_nonempty, lemma_split_on_pieces,
    lemma_split_on_whole, parse_u64, signed_padded, split_on, zero_padded,
};
use crate::sha256::{hex_text, sha256_spec};
use vstd::utf8::encode_utf8;

verus! {

/// Whether a text can stand as one field of the log: no tab, no line break.
pub open spec fn plain_field(s: Seq<char>) -> bool {
    !s.contains('\t') && !s.contains('\n')
}

/// Whether a day and each of its visitors can be written as fields of the log.
pub open spec fn plain_day(e: DayView) -> bool {
    &&& plain_field(e.0)
    &&& forall|j: int| 0 <= j < e.1.len() ==> plain_field(#[trigger] e.1[j].0)
}

/// Whether the whole ledger can be written as fields of the log.
pub open spec fn plain_ledger(m: Seq<DayView>) -> bool {
    forall|i: int| 0 <= i < m.len() ==> plain_day(#[trigger] m[i])
}

/// The highest number among `ps` (0 for nobody).
pub open spec fn max_rank(ps: Seq<(Seq<char>, u64)>) -> u64
    decreases ps.len(),
{
    if ps.len() == 0 {
        0
    } else {
        let a = max_rank(ps.drop_last());
        if a >= ps.last().1 {
            a
        } else {
            ps.last().1
        }
    }
}

/// Every day has somebody, and its count is the highest number given that day.
pub open spec fn counts_match(m: Seq<DayView>) -> bool {
    forall|i: int| 0 <= i < m.len() ==> (#[trigger] m[i]).1.len() > 0 && m[i].2 == max_rank(m[i].1)
}

/// Whether a log is empty or ends with a line break, so that a line added
/// to it stands on a line of its own.
pub open spec fn whole_lines(t: Seq<char>) -> bool {
    t.len() == 0 || t.last() == '\n'
}

/// The log `t` after the writes `js`, in order.
pub open spec fn written(t: Seq<char>, js: Seq<Journal>) -> Seq<char>
    decreases js.len(),
{
    if js.len() == 0 {
        t
    } else {
        match js.last() {
            Journal::Append(s) => written(t, js.drop_last()) + s@,
            Journal::Rewrite(s) => s@,
        }
    }
}

/// A line of the log without its line break.
pub open spec fn line_body(d: Seq<char>, p: Seq<char>, r: u64) -> Seq<char> {
    d + seq!['\t'] + p + seq!['\t'] + decimal(r as nat)
}

/// A text with `sep` at its end is split into itself without it and nothing.
proof fn lemma_split_at_end(s: Seq<char>, sep: char)
    requires
        !s.contains(sep),
    ensures
        split_on(s.push(sep), sep) == seq![s, Seq::<char>::empty()],
{
    lemma_split_on_whole(s, sep);
    assert(s.push(sep).drop_last() =~= s);
    assert(seq![s].push(Seq::<char>::empty()) =~= seq![s, Seq::<char>::empty()]);
}

/// The three fields of a line, and what the line does to a ledger.
proof fn lemma_line_fields(d: Seq<char>, p: Seq<char>, r: u64)
    requires
        plain_field(d),
        plain_field(p),
    ensures
        split_on(line_body(d, p, r), '\t') == seq![d, p, decimal(r as nat)],
        !line_body(d, p, r).contains('\n'),
        strip_cr(line_body(d, p, r)) == line_body(d, p, r),
        line_text(d, p, r) == line_body(d, p, r).push('\n'),
{
    let dec = decimal(r as nat);
    lemma_decimal_digits(r as nat);
    assert(!dec.contains('\t') && !dec.contains('\n')) by {
        if dec.contains('\t') {
            let k = choose|k: int| 0 <= k < dec.len() && dec[k] == '\t';
            assert(is_digit(dec[k]));
        }
        if dec.contains('\n') {
            let k = choose|k: int| 0 <= k < dec.len() && dec[k] == '\n';
            assert(is_digit(dec[k]));
        }
    }
    let a = d.push('\t');
    let b = p.push('\t');
    let body = line_body(d, p, r);
    assert(body =~= a + (b + dec));
    lemma_split_at_end(d, '\t');
    lemma_split_at_end(p, '\t');
    lemma_split_on_whole(dec, '\t');
    lemma_split_on_after_sep(b, dec, '\t');
    lemma_split_on_after_sep(a, b + dec, '\t');
    assert(seq![d, Seq::<char>::empty()].drop_last() + (seq![p, Seq::<char>::empty()].drop_last() + seq![dec])
        =~= seq![d, p, dec]);
    assert(!body.contains('\n')) by {
        if body.contains('\n') {
            let k = choose|k: int| 0 <= k < body.len() && body[k] == '\n';
            if k < d.len() {
                assert(d[k] == body[k]);
            } else if k == d.len() {
            } else if k < d.len() + 1 + p.len() {
                assert(p[k - d.len() - 1] == body[k]);
            } else if k == d.len() + 1 + p.len() {
            } else {
                assert(dec[k - d.len() - 2 - p.len()] == body[k]);
            }
        }
    }
    assert(body.last() == dec.last());
    assert(is_digit(dec[dec.len() - 1]));
    assert(line_text(d, p, r) =~= body.push('\n'));
}

/// Reading a line of the log sets the visitor's number on that day.
proof fn lemma_apply_line_body(m: Seq<DayView>, d: Seq<char>, p: Seq<char>, r: u64)
    requires
        plain_field(d),
        plain_field(p),
    ensures
        apply_line(m, line_body(d, p, r)) == upsert(m, d, p, r),
{
    lemma_line_fields(d, p, r);
    lemma_decimal_reads_back(r);
}

/// A line added to a log that ends with a line break becomes its last line.
proof fn lemma_log_lines_push(t: Seq<char>, l: Seq<char>)
    requires
        whole_lines(t),
        !l.contains('\n'),
        strip_cr(l) == l,
    ensures
        log_lines(t + l.push('\n')) == log_lines(t).push(l),
{
    let x = l.push('\n');
    lemma_split_at_end(l, '\n');
    if t.len() == 0 {
        assert(t + x =~= x);
        assert(log_lines(t) =~= Seq::<Seq<char>>::empty());
        assert(log_lines(x) =~= seq![l]);
    } else {
        lemma_split_on_after_sep(t, x, '\n');
        lemma_split_on_nonempty(t.drop_last(), '\n');
        let pt = split_on(t, '\n');
        assert(pt.last() =~= Seq::<char>::empty());
        let q = split_on(t + x, '\n');
        assert(q =~= pt.drop_last() + seq![l, Seq::<char>::empty()]);
        assert(log_lines(t + x) =~= log_lines(t).push(l));
    }
}

/// Appending a visitor's line to a log sets that visitor's number in what the log reads as.
proof fn lemma_load_append(t: Seq<char>, d: Seq<char>, p: Seq<char>, r: u64)
    requires
        whole_lines(t),
        plain_field(d),
        plain_field(p),
    ensures
        load_model(t + line_text(d, p, r)) == upsert(load_model(t), d, p, r),
        whole_lines(t + line_text(d, p, r)),
{
    let body = line_body(d, p, r);
    lemma_line_fields(d, p, r);
    lemma_log_lines_push(t, body);
    lemma_apply_line_body(load_model(t), d, p, r);
    let ls = log_lines(t).push(body);
    assert(ls.drop_last() =~= log_lines(t));
    assert((t + line_text(d, p, r)).last() == '\n');
}

/// What the first `j` lines of day `i` of the log read as, after the days before it.
spec fn read_so_far(m: Seq<DayView>, i: int, j: int) -> Seq<DayView> {
    if j == 0 {
        m.take(i)
    } else {
        m.take(i).push((m[i].0, m[i].1.take(j), max_rank(m[i].1.take(j))))
    }
}

proof fn lemma_visitors_read_back(m: Seq<DayView>, i: int, j: int)
    requires
        ledger_wf(m),
        plain_ledger(m),
        0 <= i < m.len(),
        0 <= j <= m[i].1.len(),
        load_model(days_text(m, i)) == m.take(i),
        whole_lines(days_text(m, i)),
    ensures
        load_model(days_text(m, i) + visitors_text(m[i].0, m[i].1, j)) == read_so_far(m, i, j),
        whole_lines(days_text(m, i) + visitors_text(m[i].0, m[i].1, j)),
    decreases j,
{
    let d = m[i].0;
    let ps = m[i].1;
    if j == 0 {
        assert(days_text(m, i) + visitors_text(d, ps, 0) =~= days_text(m, i));
    } else {
        lemma_visitors_read_back(m, i, j - 1);
        let t0 = days_text(m, i) + visitors_text(d, ps, j - 1);
        let p = ps[j - 1].0;
        let r = ps[j - 1].1;
        assert(days_text(m, i) + visitors_text(d, ps, j) =~= t0 + line_text(d, p, r));
        assert(plain_day(m[i]));
        assert(plain_field(p));
        lemma_load_append(t0, d, p, r);
        let m0 = read_so_far(m, i, j - 1);
        assert(ps.take(j).drop_last() =~= ps.take(j - 1));
        assert(ps.take(j - 1).push((p, r)) =~= ps.take(j));
        if j == 1 {
            let pre = m.take(i);
            lemma_find_day(pre, d);
            if find_day(pre, d) >= 0 {
                let f = find_day(pre, d);
                assert(pre[f] == m[f]);
                assert(lex_lt_days(m, f, i));
                lemma_lex_irreflexive(d);
            }
            assert forall|k: int| 0 <= k < pre.len() implies (#[trigger] pre[k]).0 != d by {
                assert(pre[k] == m[k]);
                assert(lex_lt_days(m, k, i));
                lemma_lex_irreflexive(d);
            }
            assert forall|a: int, b: int| 0 <= a < b < pre.len() implies crate::text::lex_lt(
                #[trigger] pre[a].0,
                #[trigger] pre[b].0,
            ) by {
                assert(pre[a] == m[a] && pre[b] == m[b]);
                assert(lex_lt_days(m, a, b));
            }
            lemma_insert_pos(pre, d);
            let pos = insert_pos(pre, d);
            if pos < i {
                assert(pre[pos] == m[pos]);
                assert(lex_lt_days(m, pos, i));
                lemma_lex_asymmetric(m[pos].0, d);
            }
            assert(ps.take(0) =~= Seq::<(Seq<char>, u64)>::empty());
            assert(pre.insert(i, (d, seq![(p, r)], r)) =~= read_so_far(m, i, 1));
        } else {
            assert(m0.last().0 == d);
            assert(find_day(m0, d) == i);
            let q = ps.take(j - 1);
            lemma_find_id(q, p);
            if find_id(q, p) >= 0 {
                let f = find_id(q, p);
                assert(q[f] == ps[f]);
                assert(ps[f].0 != ps[j - 1].0);
            }
            assert(m0.update(i, (d, q.push((p, r)), max_rank(ps.take(j)))) =~= read_so_far(m, i, j));
        }
    }
}

/// Two days of a ledger in order, by their positions.
spec fn lex_lt_days(m: Seq<DayView>, a: int, b: int) -> bool {
    crate::text::lex_lt(m[a].0, m[b].0)
}

proof fn lemma_days_read_back(m: Seq<DayView>, i: int)
    requires
        ledger_wf(m),
        plain_ledger(m),
        counts_match(m),
        0 <= i <= m.len(),
    ensures
        load_model(days_text(m, i)) == m.take(i),
        whole_lines(days_text(m, i)),
    decreases i,
{
    if i == 0 {
        let e = Seq::<char>::empty();
        assert(days_text(m, 0) == e);
        assert(log_lines(e) =~= Seq::<Seq<char>>::empty());
        assert(m.take(0) =~= Seq::<DayView>::empty());
    } else {
        lemma_days_read_back(m, i - 1);
        let n = m[i - 1].1.len() as int;
        lemma_visitors_read_back(m, i - 1, n);
        assert(m[i - 1].1.take(n) =~= m[i - 1].1);
        assert(read_so_far(m, i - 1, n) =~= m.take(i));
    }
}

/// The log written for a ledger reads back as that very ledger, when its
/// fields can be written and each day's count is its highest number.
pub proof fn law_log_text_reads_back(m: Seq<DayView>)
    requires
        ledger_wf(m),
        plain_ledger(m),
        counts_match(m),
    ensures
        load_model(log_text(m)) == m,
        whole_lines(log_text(m)),
{
    lemma_days_read_back(m, m.len() as int);
    assert(m.take(m.len() as int) =~= m);
}

/// Setting a number with plain fields keeps the ledger plain.
proof fn lemma_upsert_plain(m: Seq<DayView>, d: Seq<char>, p: Seq<char>, r: u64)
    requires
        plain_ledger(m),
        plain_field(d),
        plain_field(p),
    ensures
        plain_ledger(upsert(m, d, p, r)),
{
    lemma_find_day(m, d);
    let i = find_day(m, d);
    let m2 = upsert(m, d, p, r);
    if i >= 0 {
        let ps = m[i].1;
        lemma_find_id(ps, p);
        let j = find_id(ps, p);
        assert(plain_day(m[i]));
        let ps2 = if j >= 0 {
            ps.update(j, (p, r))
        } else {
            ps.push((p, r))
        };
        assert forall|k: int| 0 <= k < ps2.len() implies plain_field(#[trigger] ps2[k].0) by {
            if k < ps.len() && k != j {
                assert(ps2[k] == ps[k]);
            }
        }
        assert(plain_day(m2[i]));
        assert forall|k: int| 0 <= k < m2.len() implies plain_day(#[trigger] m2[k]) by {
            if k != i {
                assert(m2[k] == m[k]);
            }
        }
    } else {
        lemma_insert_pos_bound(m, d);
        let pos = insert_pos(m, d);
        let e = (d, seq![(p, r)], r);
        assert forall|j: int| 0 <= j < e.1.len() implies plain_field(#[trigger] e.1[j].0) by {
            assert(e.1[j] == (p, r));
        }
        assert forall|k: int| 0 <= k < m2.len() implies plain_day(#[trigger] m2[k]) by {
            if k < pos {
                assert(m2[k] == m[k]);
            } else if k > pos {
                assert(m2[k] == m[k - 1]);
            } else {
                assert(m2[k] == e);
            }
        }
    }
}

/// A line without line breaks keeps what it is applied to plain.
proof fn lemma_apply_line_plain(m: Seq<DayView>, line: Seq<char>)
    requires
        plain_ledger(m),
        !line.contains('\n'),
    ensures
        plain_ledger(apply_line(m, line)),
{
    let f = split_on(line, '\t');
    if f.len() >= 3 {
        if let Some(r) = parse_u64(f[2]) {
            lemma_split_on_pieces(line, '\t');
            assert forall|k: int| 0 <= k < 2 implies plain_field(#[trigger] f[k]) by {
                if f[k].contains('\t') {
                    let i = choose|i: int| 0 <= i < f[k].len() && f[k][i] == '\t';
                    assert(split_on(line, '\t')[k][i] != '\t');
                }
                if f[k].contains('\n') {
                    let i = choose|i: int| 0 <= i < f[k].len() && f[k][i] == '\n';
                    assert(line.contains(split_on(line, '\t')[k][i]));
                }
            }
            lemma_upsert_plain(m, f[0], f[1], r);
        }
    }
}

/// No line of a log holds a line break.
proof fn lemma_log_lines_plain(t: Seq<char>)
    ensures
        forall|k: int| 0 <= k < log_lines(t).len() ==> !(#[trigger] log_lines(t)[k]).contains('\n'),
{
    let p = split_on(t, '\n');
    lemma_split_on_pieces(t, '\n');
    lemma_split_on_nonempty(t, '\n');
    assert forall|k: int| 0 <= k < log_lines(t).len() implies !(#[trigger] log_lines(t)[k]).contains('\n') by {
        let y = log_lines(t)[k];
        if y.contains('\n') {
            let i = choose|i: int| 0 <= i < y.len() && y[i] == '\n';
            assert(y[i] == p[k][i]);
            assert(split_on(t, '\n')[k][i] != '\n');
        }
    }
}

proof fn lemma_load_lines_plain(ls: Seq<Seq<char>>)
    requires
        forall|k: int| 0 <= k < ls.len() ==> !(#[trigger] ls[k]).contains('\n'),
    ensures
        plain_ledger(load_lines(ls)),
    decreases ls.len(),
{
    if ls.len() > 0 {
        let init = ls.drop_last();
        assert forall|k: int| 0 <= k < init.len() implies !(#[trigger] init[k]).contains('\n') by {
            assert(init[k] == ls[k]);
        }
        lemma_load_lines_plain(init);
        assert(ls.last() == ls[ls.len() - 1]);
        lemma_apply_line_plain(load_lines(init), ls.last());
    }
}

/// Whatever a log holds, it reads as a ledger whose fields can be written again.
pub proof fn lemma_loaded_plain(t: Seq<char>)
    ensures
        plain_ledger(load_model(t)),
{
    lemma_log_lines_plain(t);
    lemma_load_lines_plain(log_lines(t));
}

/// The log after the writes of one visit: nothing, one line, or one line and then all anew.
proof fn lemma_written_visit(t: Seq<char>, js: Seq<Journal>)
    requires
        js.len() <= 2,
        js.len() >= 1 ==> js[0] is Append,
        js.len() == 2 ==> js[1] is Rewrite,
    ensures
        js.len() == 0 ==> written(t, js) == t,
        js.len() == 1 ==> written(t, js) == t + js[0]->Append_0@,
        js.len() == 2 ==> written(t, js) == js[1]->Rewrite_0@,
{
    if js.len() == 1 {
        assert(js.drop_last() =~= Seq::<Journal>::empty());
        assert(written(t, js.drop_last()) == t);
        assert(js.last() == js[0]);
    } else if js.len() == 2 {
        assert(js.last() == js[1]);
    }
}

/// What the log says after a visit: if the ledger was what its log reads as
/// before, it still is after the visit's writes are applied to the log. So
/// after a restart every visitor keeps their number. When the visit pushes
/// old days out and the log is written anew, this holds where each kept
/// day's count is its highest number, as it is in every ledger this library
/// builds from an empty log (see the last clause).
pub proof fn law_log_replays_visit(
    log: Seq<char>,
    before: Seq<DayView>,
    after: Seq<DayView>,
    pending: Seq<Journal>,
    pending_after: Seq<Journal>,
    d: Seq<char>,
    p: Seq<char>,
    w: Worship,
)
    requires
        ledger_wf(before),
        load_model(log) == before,
        whole_lines(log),
        plain_field(d),
        plain_field(p),
        can_count(before, d, p),
        visit_prunes(before, d) ==> counts_match(before),
        visit_recorded(before, after, pending, pending_after, d, p, w),
    ensures
        load_model(written(log, pending_after.skip(pending.len() as int))) == after,
        whole_lines(written(log, pending_after.skip(pending.len() as int))),
        counts_match(before) ==> counts_match(after),
{
    let n = pending.len() as int;
    let fresh = pending_after.skip(n);
    lemma_find_day(before, d);
    lemma_visit_keeps_wf(before, d, p);
    let i = find_day(before, d);
    if i >= 0 {
        lemma_find_id(before[i].1, p);
    }
    if w.repeat {
        assert(fresh =~= Seq::<Journal>::empty());
        lemma_written_visit(log, fresh);
    } else if visit_prunes(before, d) {
        assert(fresh.len() == 2);
        assert(fresh[0] == pending_after[n]);
        assert(fresh[1] == pending_after[n + 1]);
        lemma_written_visit(log, fresh);
        lemma_counts_after_visit(before, d, p);
        lemma_loaded_plain(log);
        lemma_plain_after_visit(before, d, p);
        law_log_text_reads_back(after);
    } else {
        assert(fresh.len() == 1);
        assert(fresh[0] == pending_after[n]);
        lemma_written_visit(log, fresh);
        lemma_load_append(log, d, p, w.rank);
        if i < 0 {
            lemma_insert_pos_bound(before, d);
        }
        assert(upsert(before, d, p, w.rank) =~= after);
        if counts_match(before) {
            lemma_counts_after_visit(before, d, p);
        }
    }
}

/// A visit keeps each day's count at its highest number.
proof fn lemma_counts_after_visit(m: Seq<DayView>, d: Seq<char>, p: Seq<char>)
    requires
        counts_match(m),
        can_count(m, d, p),
    ensures
        counts_match(after_visit(m, d, p)),
{
    lemma_find_day(m, d);
    let i = find_day(m, d);
    let m2 = after_visit(m, d, p);
    if i >= 0 {
        lemma_find_id(m[i].1, p);
        if find_id(m[i].1, p) < 0 {
            let t = (m[i].2 + 1) as u64;
            let ps2 = m[i].1.push((p, t));
            assert(ps2.drop_last() =~= m[i].1);
            assert forall|k: int| 0 <= k < m2.len() implies (#[trigger] m2[k]).1.len() > 0 && m2[k].2 == max_rank(
                m2[k].1,
            ) by {
                if k != i {
                    assert(m2[k] == m[k]);
                }
            }
        }
    } else {
        lemma_insert_pos_bound(m, d);
        let pos = insert_pos(m, d);
        let e = (d, seq![(p, 1u64)], 1u64);
        let m1 = m.insert(pos, e);
        let one = seq![(p, 1u64)];
        assert(one.drop_last() =~= Seq::<(Seq<char>, u64)>::empty());
        assert(max_rank(one.drop_last()) == 0);
        assert(one.last() == (p, 1u64));
        assert(max_rank(one) == 1);
        assert forall|k: int| 0 <= k < m1.len() implies (#[trigger] m1[k]).1.len() > 0 && m1[k].2 == max_rank(
            m1[k].1,
        ) by {
            if k < pos {
                assert(m1[k] == m[k]);
            } else if k > pos {
                assert(m1[k] == m[k - 1]);
            } else {
                assert(m1[k] == e);
            }
        }
        if m1.len() > KEEP_DAYS {
            let s = m1.len() - KEEP_DAYS;
            assert forall|k: int| 0 <= k < m2.len() implies (#[trigger] m2[k]).1.len() > 0 && m2[k].2
                == max_rank(m2[k].1) by {
                assert(m2[k] == m1[k + s]);
            }
        }
    }
}

/// A visit with plain fields keeps the ledger plain.
proof fn lemma_plain_after_visit(m: Seq<DayView>, d: Seq<char>, p: Seq<char>)
    requires
        plain_ledger(m),
        plain_field(d),
        plain_field(p),
    ensures
        plain_ledger(after_visit(m, d, p)),
{
    lemma_find_day(m, d);
    let i = find_day(m, d);
    let m2 = after_visit(m, d, p);
    if i >= 0 {
        lemma_find_id(m[i].1, p);
        if find_id(m[i].1, p) < 0 {
            let t = (m[i].2 + 1) as u64;
            let ps2 = m[i].1.push((p, t));
            assert(plain_day(m[i]));
            assert forall|j: int| 0 <= j < ps2.len() implies plain_field(#[trigger] ps2[j].0) by {
                if j < m[i].1.len() {
                    assert(ps2[j] == m[i].1[j]);
                }
            }
            assert forall|k: int| 0 <= k < m2.len() implies plain_day(#[trigger] m2[k]) by {
                if k != i {
                    assert(m2[k] == m[k]);
                }
            }
        }
    } else {
        lemma_insert_pos_bound(m, d);
        let pos = insert_pos(m, d);
        let e = (d, seq![(p, 1u64)], 1u64);
        let m1 = m.insert(pos, e);
        assert forall|j: int| 0 <= j < e.1.len() implies plain_field(#[trigger] e.1[j].0) by {
            assert(e.1[j] == (p, 1u64));
        }
        assert forall|k: int| 0 <= k < m1.len() implies plain_day(#[trigger] m1[k]) by {
            if k < pos {
                assert(m1[k] == m[k]);
            } else if k > pos {
                assert(m1[k] == m[k - 1]);
            }
        }
        if m1.len() > KEEP_DAYS {
            let s = m1.len() - KEEP_DAYS;
            assert forall|k: int| 0 <= k < m2.len() implies plain_day(#[trigger] m2[k]) by {
                assert(m2[k] == m1[k + s]);
            }
        }
    }
}

/// Whether every character of `s` is a decimal digit or a dash.
spec fn digits_or_dashes(s: Seq<char>) -> bool {
    forall|i: int| 0 <= i < s.len() ==> is_digit(#[trigger] s[i]) || s[i] == '-'
}

proof fn lemma_padded_digits(n: nat, width: int)
    ensures
        digits_or_dashes(zero_padded(decimal(n), width)),
{
    lemma_decimal_digits(n);
    let z = zero_padded(decimal(n), width);
    let k = if width > decimal(n).len() {
        (width - decimal(n).len()) as nat
    } else {
        0
    };
    assert forall|i: int| 0 <= i < z.len() implies is_digit(#[trigger] z[i]) || z[i] == '-' by {
        if i >= k {
            assert(z[i] == decimal(n)[i - k]);
        }
    }
}

proof fn lemma_plain_digits(s: Seq<char>)
    requires
        digits_or_dashes(s),
    ensures
        plain_field(s),
{
    if s.contains('\t') {
        let k = choose|k: int| 0 <= k < s.len() && s[k] == '\t';
        assert(is_digit(s[k]) || s[k] == '-');
    }
    if s.contains('\n') {
        let k = choose|k: int| 0 <= k < s.len() && s[k] == '\n';
        assert(is_digit(s[k]) || s[k] == '-');
    }
}

/// A date written as `YYYY-MM-DD` is a plain field of the log.
pub proof fn lemma_date_plain(days: int, s: Seq<char>)
    requires
        is_day_text(days, s),
    ensures
        plain_field(s),
{
    let (y, m, d) = choose|y: int, m: int, d: int|
        crate::calendar::valid_date(y, m, d) && crate::calendar::days_from_epoch(y, m, d) == days && s
            == date_text(y, m, d);
    let sy = signed_padded(y, 4);
    if y < 0 {
        lemma_padded_digits((-y) as nat, 3);
        let z = zero_padded(decimal((-y) as nat), 3);
        assert forall|i: int| 0 <= i < sy.len() implies is_digit(#[trigger] sy[i]) || sy[i] == '-' by {
            if i > 0 {
                assert(sy[i] == z[i - 1]);
            }
        }
    } else {
        lemma_padded_digits(y as nat, 4);
    }
    let sm = zero_padded(decimal(m as nat), 2);
    let sd = zero_padded(decimal(d as nat), 2);
    lemma_padded_digits(m as nat, 2);
    lemma_padded_digits(d as nat, 2);
    let a = sy + seq!['-'];
    let b = a + sm;
    let c = b + seq!['-'];
    assert(s =~= c + sd);
    assert forall|i: int| 0 <= i < s.len() implies is_digit(#[trigger] s[i]) || s[i] == '-' by {
        if i < sy.len() {
            assert(s[i] == sy[i]);
        } else if i == sy.len() {
        } else if i < b.len() {
            assert(s[i] == sm[i - a.len()]);
        } else if i == b.len() {
        } else {
            assert(s[i] == sd[i - c.len()]);
        }
    }
    lemma_plain_digits(s);
}

/// A visitor's key is lower-case hexadecimal digits, a plain field of the log.
pub proof fn lemma_key_plain(salt: Seq<char>, identity: Seq<char>)
    ensures
        plain_field(pilgrim_key(salt, identity)),
{
    let b = sha256_spec(encode_utf8(salt + seq![':'] + identity)).take(8);
    let h = pilgrim_key(salt, identity);
    assert(h == hex_text(b));
    assert forall|i: int| 0 <= i < h.len() implies #[trigger] h[i] != '\t' && h[i] != '\n' by {
        let v: int = if i % 2 == 0 {
            (b[i / 2] / 16) as int
        } else {
            (b[i / 2] % 16) as int
        };
        assert(0 <= v < 16);
        assert(h[i] == crate::sha256::hex_digit(v));
    }
    if h.contains('\t') {
        let k = choose|k: int| 0 <= k < h.len() && h[k] == '\t';
        assert(h[k] != '\t');
    }
    if h.contains('\n') {
        let k = choose|k: int| 0 <= k < h.len() && h[k] == '\n';
        assert(h[k] != '\n');
    }
}

/// The restart law for `Counter::worship`: whatever day it is, the log with
/// the visit's writes applied reads back as the ledger after the visit.
pub proof fn law_worship_replays(
    log: Seq<char>,
    before: Seq<DayView>,
    after: Seq<DayView>,
    pending: Seq<Journal>,
    pending_after: Seq<Journal>,
    salt: Seq<char>,
    identity: Seq<char>,
    w: Worship,
)
    requires
        ledger_wf(before),
        load_model(log) == before,
        whole_lines(log),
        forall|d: Seq<char>| can_count(before, d, pilgrim_key(salt, identity)),
        forall|d: Seq<char>| visit_prunes(before, d) ==> counts_match(before),
        exists|d: Seq<char>|
            (exists|secs: i64| is_day_text(local_day(secs), d)) && visit_recorded(
                before,
                after,
                pending,
                pending_after,
                d,
                pilgrim_key(salt, identity),
                w,
            ),
    ensures
        load_model(written(log, pending_after.skip(pending.len() as int))) == after,
        whole_lines(written(log, pending_after.skip(pending.len() as int))),
        counts_match(before) ==> counts_match(after),
{
    let p = pilgrim_key(salt, identity);
    let d = choose|d: Seq<char>|
        (exists|secs: i64| is_day_text(local_day(secs), d)) && visit_recorded(before, after, pending, pending_after, d, p, w);
    let secs = choose|secs: i64| is_day_text(local_day(secs), d);
    lemma_date_plain(local_day(secs), d);
    lemma_key_plain(salt, identity);
    law_log_replays_visit(log, before, after, pending, pending_after, d, p, w);
}

} // verus!
