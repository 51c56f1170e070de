//! The ledger of worship: who came on which day and with which number.
//! Each day counts its visitors from one; the same visitor on the same day
//! keeps the first number. Only the latest days are kept.

use vstd::prelude::*;
use vstd::utf8::encode_utf8;

use crate::calendar::{is_day_text, local_day, today};
use crate::sha256::{short_hex, short_hex_text};

use crate::text::{
    chars_of, lemma_split_on_nonempty, parse_u64, parse_u64_chars, split_on, split_ranges, string_of,
    decimal, lemma_lex_irreflexive, lemma_lex_total, lemma_lex_transitive, lex_less, lex_lt, push_char,
    push_decimal,
};

verus! {

/// How many days the ledger keeps.
pub const KEEP_DAYS: usize = 30;

/// The answer to one visit.
pub struct Worship {
    pub day: String,
    /// The visitor's number on that day.
    pub rank: u64,
    /// How many have come that day so far.
    pub total: u64,
    /// The visitor had already come that day.
    pub repeat: bool,
}

/// What has to be written to the ledger's log for the changes made.
pub enum Journal {
    /// Append this text (one line) to the log.
    Append(String),
    /// Replace the whole log by this text.
    Rewrite(String),
}

/// One day of the ledger.
struct DayRecord {
    day: String,
    /// Visitors in order of their first visit, with their numbers.
    pilgrims: Vec<(String, u64)>,
    total: u64,
}

/// A day as the contracts see it: the day, its visitors with their
/// numbers in order of arrival, and how many have come.
pub type DayView = (Seq<char>, Seq<(Seq<char>, u64)>, u64);

/// A list of visitors as the contracts see it.
pub open spec fn pilgrims_view(ps: Seq<(String, u64)>) -> Seq<(Seq<char>, u64)> {
    ps.map_values(|e: (String, u64)| (e.0@, e.1))
}

impl DayRecord {
    spec fn view(&self) -> DayView {
        (self.day@, pilgrims_view(self.pilgrims@), self.total)
    }
}

/// The days as the contracts see them.
spec fn days_view(days: Seq<DayRecord>) -> Seq<DayView> {
    days.map_values(|r: DayRecord| r.view())
}

/// The last position of visitor `p` in `ps`, or -1.
pub open spec fn find_id(ps: Seq<(Seq<char>, u64)>, p: Seq<char>) -> int
    decreases ps.len(),
{
    if ps.len() == 0 {
        -1
    } else if ps.last().0 == p {
        ps.len() - 1
    } else {
        find_id(ps.drop_last(), p)
    }
}

/// The last position of day `d` in `m`, or -1.
pub open spec fn find_day(m: Seq<DayView>, d: Seq<char>) -> int
    decreases m.len(),
{
    if m.len() == 0 {
        -1
    } else if m.last().0 == d {
        m.len() - 1
    } else {
        find_day(m.drop_last(), d)
    }
}

/// Where day `d` belongs in the days `m` kept in order: after every earlier day.
pub open spec fn insert_pos(m: Seq<DayView>, d: Seq<char>) -> int
    decreases m.len(),
{
    if m.len() == 0 {
        0
    } else if lex_lt(m.last().0, d) {
        m.len() as int
    } else {
        insert_pos(m.drop_last(), d)
    }
}

/// The days in strictly increasing order, and no visitor twice in a day.
pub open spec fn ledger_wf(m: Seq<DayView>) -> bool {
    &&& days_sorted(m)
    &&& forall|i: int| 0 <= i < m.len() ==> ids_unique(#[trigger] m[i].1)
}

/// The days in strictly increasing order.
pub open spec fn days_sorted(m: Seq<DayView>) -> bool {
    forall|i: int, j: int| 0 <= i < j < m.len() ==> lex_lt(#[trigger] m[i].0, #[trigger] m[j].0)
}

/// No visitor appears twice.
pub open spec fn ids_unique(ps: Seq<(Seq<char>, u64)>) -> bool {
    forall|i: int, j: int| 0 <= i < j < ps.len() ==> (#[trigger] ps[i]).0 != (#[trigger] ps[j]).0
}

/// Only the latest `KEEP_DAYS` days.
pub open spec fn keep_latest(m: Seq<DayView>) -> Seq<DayView> {
    if m.len() > KEEP_DAYS {
        m.skip(m.len() - KEEP_DAYS)
    } else {
        m
    }
}

/// Whether a visit of `p` on `d` finds room to count one more.
pub open spec fn can_count(m: Seq<DayView>, d: Seq<char>, p: Seq<char>) -> bool {
    let i = find_day(m, d);
    i >= 0 && find_id(m[i].1, p) < 0 ==> m[i].2 < u64::MAX
}

/// The ledger after `p` has come on day `d`: a newcomer gets the next number,
/// somebody who already came keeps theirs, a new day starts at one and
/// pushes the oldest days out past `KEEP_DAYS`.
pub open spec fn after_visit(m: Seq<DayView>, d: Seq<char>, p: Seq<char>) -> Seq<DayView> {
    let i = find_day(m, d);
    if i >= 0 {
        if find_id(m[i].1, p) >= 0 {
            m
        } else {
            let t = (m[i].2 + 1) as u64;
            m.update(i, (d, m[i].1.push((p, t)), t))
        }
    } else {
        keep_latest(m.insert(insert_pos(m, d), (d, seq![(p, 1u64)], 1u64)))
    }
}

/// The number `p` has on day `d` after coming, and the day's count.
pub open spec fn visit_numbers(m: Seq<DayView>, d: Seq<char>, p: Seq<char>) -> (u64, u64, bool) {
    let i = find_day(m, d);
    if i >= 0 {
        let j = find_id(m[i].1, p);
        if j >= 0 {
            (m[i].1[j].1, m[i].2, true)
        } else {
            ((m[i].2 + 1) as u64, (m[i].2 + 1) as u64, false)
        }
    } else {
        (1u64, 1u64, false)
    }
}

/// One line of the log: day, visitor and number, separated by tabs.
pub open spec fn line_text(d: Seq<char>, p: Seq<char>, r: u64) -> Seq<char> {
    d + seq!['\t'] + p + seq!['\t'] + decimal(r as nat) + seq!['\n']
}

/// The log lines of the first `n` visitors of a day.
pub open spec fn visitors_text(d: Seq<char>, ps: Seq<(Seq<char>, u64)>, n: int) -> Seq<char>
    decreases n,
{
    if n <= 0 {
        Seq::empty()
    } else {
        visitors_text(d, ps, n - 1) + line_text(d, ps[n - 1].0, ps[n - 1].1)
    }
}

/// The whole log of the first `n` days: day by day, visitors in order of arrival.
pub open spec fn days_text(m: Seq<DayView>, n: int) -> Seq<char>
    decreases n,
{
    if n <= 0 {
        Seq::empty()
    } else {
        days_text(m, n - 1) + visitors_text(m[n - 1].0, m[n - 1].1, m[n - 1].1.len() as int)
    }
}

/// The whole log that describes the ledger `m`.
pub open spec fn log_text(m: Seq<DayView>) -> Seq<char> {
    days_text(m, m.len() as int)
}

/// Whether `j` appends exactly `t` to the log.
pub open spec fn appends(j: Journal, t: Seq<char>) -> bool {
    j matches Journal::Append(s) && s@ == t
}

/// Whether `j` replaces the log by exactly `t`.
pub open spec fn rewrites(j: Journal, t: Seq<char>) -> bool {
    j matches Journal::Rewrite(s) && s@ == t
}

/// Whether a visit that starts a new day pushes old days out.
pub open spec fn visit_prunes(m: Seq<DayView>, d: Seq<char>) -> bool {
    find_day(m, d) < 0 && m.len() + 1 > KEEP_DAYS
}

/// A line without the carriage return before its line feed.
pub open spec fn strip_cr(x: Seq<char>) -> Seq<char> {
    if x.len() > 0 && x.last() == '\r' {
        x.drop_last()
    } else {
        x
    }
}

/// The lines of a text as `str::lines` gives them: split at `\n`, a `\r`
/// right before a `\n` dropped, and no empty line after a final `\n`.
pub open spec fn log_lines(t: Seq<char>) -> Seq<Seq<char>> {
    let p = split_on(t, '\n');
    let n = p.len();
    let kept = if p[n - 1].len() == 0 {
        n - 1
    } else {
        n as int
    };
    Seq::new(
        kept as nat,
        |k: int|
            if k < n - 1 {
                strip_cr(p[k])
            } else {
                p[k]
            },
    )
}

/// The ledger after a line of the log says that `p` had number `r` on `d`:
/// the number is set, and the day's count is at least `r`.
pub open spec fn upsert(m: Seq<DayView>, d: Seq<char>, p: Seq<char>, r: u64) -> Seq<DayView> {
    let i = find_day(m, d);
    if i >= 0 {
        let ps = m[i].1;
        let j = find_id(ps, p);
        let ps2 = if j >= 0 {
            ps.update(j, (p, r))
        } else {
            ps.push((p, r))
        };
        let t = if m[i].2 >= r {
            m[i].2
        } else {
            r
        };
        m.update(i, (d, ps2, t))
    } else {
        m.insert(insert_pos(m, d), (d, seq![(p, r)], r))
    }
}

/// The ledger after one line of the log. A line with fewer than three
/// tab-separated fields, or whose third field is no number, is skipped.
pub open spec fn apply_line(m: Seq<DayView>, line: Seq<char>) -> Seq<DayView> {
    let f = split_on(line, '\t');
    if f.len() >= 3 {
        match parse_u64(f[2]) {
            Some(r) => upsert(m, f[0], f[1], r),
            None => m,
        }
    } else {
        m
    }
}

/// The ledger that a sequence of log lines describes.
pub open spec fn load_lines(ls: Seq<Seq<char>>) -> Seq<DayView>
    decreases ls.len(),
{
    if ls.len() == 0 {
        Seq::empty()
    } else {
        apply_line(load_lines(ls.drop_last()), ls.last())
    }
}

/// The ledger that a log describes.
pub open spec fn load_model(t: Seq<char>) -> Seq<DayView> {
    load_lines(log_lines(t))
}

/// The key a visitor is counted by: the first 16 hexadecimal digits of the
/// SHA-256 of `salt:identity`, so that no identity is stored.
pub open spec fn pilgrim_key(salt: Seq<char>, identity: Seq<char>) -> Seq<char> {
    short_hex_text(encode_utf8(salt + seq![':'] + identity))
}

/// What a visit of `p` on day `d` does, as `worship_on` promises it.
pub open spec fn visit_recorded(
    before: Seq<DayView>,
    after: Seq<DayView>,
    log_before: Seq<Journal>,
    log_after: Seq<Journal>,
    d: Seq<char>,
    p: Seq<char>,
    w: Worship,
) -> bool {
    &&& after == after_visit(before, d, p)
    &&& w.day@ == d
    &&& (w.rank, w.total, w.repeat) == visit_numbers(before, d, p)
    &&& w.repeat ==> log_after == log_before
    &&& !w.repeat ==> {
        let n = log_before.len();
        &&& log_after.take(n as int) == log_before
        &&& log_after.len() == n + if visit_prunes(before, d) {
            2int
        } else {
            1int
        }
        &&& appends(log_after[n as int], line_text(d, p, w.rank))
        &&& visit_prunes(before, d) ==> rewrites(log_after[n + 1int], log_text(after))
    }
}

/// The ledger of visits.
pub struct Counter {
    salt: String,
    days: Vec<DayRecord>,
    journal: Vec<Journal>,
}

impl View for Counter {
    type V = Seq<DayView>;

    closed spec fn view(&self) -> Seq<DayView> {
        days_view(self.days@)
    }
}

impl Counter {
    #[verifier::type_invariant]
    spec fn well_formed(self) -> bool {
        ledger_wf(days_view(self.days@))
    }

    /// The salt mixed into every visitor's identity before hashing.
    pub closed spec fn salt(&self) -> Seq<char> {
        self.salt@
    }

    /// The writes to the log that have not been taken yet.
    pub closed spec fn pending(&self) -> Seq<Journal> {
        self.journal@
    }

    /// Hands out the writes to the log made since the last call.
    pub fn take_journal(&mut self) -> (j: Vec<Journal>)
        ensures
            j@ == old(self).pending(),
            final(self).pending() == Seq::<Journal>::empty(),
            final(self)@ == old(self)@,
            final(self).salt() == old(self).salt(),
    {
        proof {
            use_type_invariant(&*self);
        }
        let mut j: Vec<Journal> = Vec::new();
        std::mem::swap(&mut j, &mut self.journal);
        j
    }

    /// Builds the ledger from its log. Half-written and garbled lines are skipped.
    pub fn open(log: &str, salt: String) -> (c: Counter)
        ensures
            c@ == load_model(log@),
            c.salt() == salt@,
            c.pending() == Seq::<Journal>::empty(),
    {
        let cs = chars_of(log);
        let pieces = split_ranges(&cs, 0, cs.len(), '\n');
        let ghost t = log@;
        let ghost p = split_on(t, '\n');
        proof {
            assert(cs@.subrange(0, cs@.len() as int) =~= t);
            lemma_split_on_nonempty(t, '\n');
        }
        let last = pieces.len() - 1;
        let kept = if pieces[last].0 == pieces[last].1 {
            last
        } else {
            pieces.len()
        };
        proof {
            assert(kept == log_lines(t).len());
        }
        let mut days: Vec<DayRecord> = Vec::new();
        let mut k: usize = 0;
        while k < kept
            invariant
                kept == log_lines(t).len(),
                k <= kept <= pieces@.len(),
                last == pieces@.len() - 1,
                pieces@.len() == p.len(),
                p == split_on(t, '\n'),
                cs@ == t,
                forall|q: int|
                    0 <= q < pieces@.len() ==> (#[trigger] pieces@[q]).0 <= pieces@[q].1 <= cs@.len()
                        && cs@.subrange(pieces@[q].0 as int, pieces@[q].1 as int) == p[q],
                ledger_wf(days_view(days@)),
                days_view(days@) == load_lines(log_lines(t).take(k as int)),
            decreases kept - k,
        {
            let (a, b) = pieces[k];
            let mut end = b;
            if k < last && b > a && cs[b - 1] == '\r' {
                end = b - 1;
            }
            proof {
                let x = p[k as int];
                assert(x == cs@.subrange(a as int, b as int));
                if k < last && b > a && cs@[b - 1] == '\r' {
                    assert(x.last() == '\r');
                    assert(cs@.subrange(a as int, end as int) =~= x.drop_last());
                }
                assert(cs@.subrange(a as int, end as int) == log_lines(t)[k as int]);
                assert(log_lines(t).take(k + 1).drop_last() =~= log_lines(t).take(k as int));
            }
            apply_log_line(&mut days, &cs, a, end);
            k = k + 1;
        }
        proof {
            assert(log_lines(t).take(kept as int) =~= log_lines(t));
        }
        Counter { salt, days, journal: Vec::new() }
    }

    /// The key that `identity` is counted by.
    pub fn pilgrim_id(&self, identity: &str) -> (id: String)
        ensures
            id@ == pilgrim_key(self.salt(), identity@),
    {
        let mut key = self.salt.clone();
        push_char(&mut key, ':');
        key.append(identity);
        proof {
            assert(key@ =~= self.salt@ + seq![':'] + identity@);
        }
        let k = key.as_str();
        short_hex(k.as_bytes())
    }

    /// Whether a visit by the visitor with key `id` can be counted, whatever
    /// the day: no day they have not come on yet has given out the last number.
    pub fn has_room(&self, id: &String) -> (b: bool)
        ensures
            b == forall|d: Seq<char>| can_count(self@, d, id@),
    {
        proof {
            use_type_invariant(self);
        }
        let ghost m = self@;
        let mut i: usize = 0;
        while i < self.days.len()
            invariant
                i <= self.days@.len(),
                m == days_view(self.days@),
                ledger_wf(m),
                forall|k: int| 0 <= k < i ==> (find_id(#[trigger] m[k].1, id@) < 0 ==> m[k].2 < u64::MAX),
            decreases self.days@.len() - i,
        {
            let rec = &self.days[i];
            if rec.total == u64::MAX {
                proof {
                    assert(rec.view() == m[i as int]);
                }
                if find_id_index(&rec.pilgrims, id).is_none() {
                    proof {
                        lemma_find_day_at(m, i as int);
                        assert(!can_count(self@, m[i as int].0, id@));
                        assert(!(forall|d: Seq<char>| can_count(self@, d, id@)));
                    }
                    return false;
                }
            }
            proof {
                assert(rec.view() == m[i as int]);
            }
            i = i + 1;
        }
        proof {
            assert forall|d: Seq<char>| can_count(m, d, id@) by {
                lemma_find_day(m, d);
            }
        }
        true
    }

    /// Records a visit of `identity` today (in UTC+8). Somebody who already
    /// came today keeps the first number.
    pub fn worship(&mut self, identity: &str) -> (w: Worship)
        requires
            forall|d: Seq<char>| can_count(old(self)@, d, pilgrim_key(old(self).salt(), identity@)),
        ensures
            final(self).salt() == old(self).salt(),
            exists|d: Seq<char>|
                (exists|secs: i64| is_day_text(local_day(secs), d)) && visit_recorded(
                    old(self)@,
                    final(self)@,
                    old(self).pending(),
                    final(self).pending(),
                    d,
                    pilgrim_key(old(self).salt(), identity@),
                    w,
                ),
    {
        let day = today();
        let id = self.pilgrim_id(identity);
        let ghost d = day@;
        let w = self.worship_on(day, id);
        proof {
            assert(visit_recorded(
                old(self)@,
                self@,
                old(self).pending(),
                self.pending(),
                d,
                pilgrim_key(old(self).salt(), identity@),
                w,
            ));
        }
        w
    }

    /// Queues one write to the log.
    fn record(&mut self, entry: Journal)
        ensures
            final(self)@ == old(self)@,
            final(self).salt() == old(self).salt(),
            final(self).pending() == old(self).pending().push(entry),
    {
        proof {
            use_type_invariant(&*self);
        }
        let mut j: Vec<Journal> = Vec::new();
        std::mem::swap(&mut j, &mut self.journal);
        j.push(entry);
        self.journal = j;
    }

    /// Records that visitor `id` came on `day`. Somebody who already came
    /// that day keeps the first number; a newcomer gets the next one and a
    /// line in the log. A new day may push the oldest days out, and then the
    /// whole log is written anew.
    pub fn worship_on(&mut self, day: String, id: String) -> (w: Worship)
        requires
            can_count(old(self)@, day@, id@),
        ensures
            final(self)@ == after_visit(old(self)@, day@, id@),
            w.day@ == day@,
            (w.rank, w.total, w.repeat) == visit_numbers(old(self)@, day@, id@),
            final(self).salt() == old(self).salt(),
            w.repeat ==> final(self).pending() == old(self).pending(),
            !w.repeat ==> {
                let n = old(self).pending().len();
                &&& final(self).pending().take(n as int) == old(self).pending()
                &&& final(self).pending().len() == n + if visit_prunes(old(self)@, day@) {
                    2int
                } else {
                    1int
                }
                &&& appends(final(self).pending()[n as int], line_text(day@, id@, w.rank))
                &&& visit_prunes(old(self)@, day@) ==> rewrites(
                    final(self).pending()[n + 1int],
                    log_text(final(self)@),
                )
            },
    {
        proof {
            use_type_invariant(&*self);
        }
        let mut days: Vec<DayRecord> = Vec::new();
        std::mem::swap(&mut days, &mut self.days);
        let ghost m = days_view(days@);
        proof {
            lemma_find_day(m, day@);
        }
        match find_day_index(&days, &day) {
            Some(i) => {
                let mut rec = days.remove(i);
                proof {
                    assert(rec.view() == m[i as int]);
                    lemma_find_id(m[i as int].1, id@);
                }
                match find_id_index(&rec.pilgrims, &id) {
                    Some(j) => {
                        let rank = rec.pilgrims[j].1;
                        let total = rec.total;
                        days.insert(i, rec);
                        proof {
                            assert(days_view(days@) =~= m);
                        }
                        self.days = days;
                        Worship { day, rank, total, repeat: true }
                    },
                    None => {
                        let total = rec.total + 1;
                        let line = log_line(&day, &id, total);
                        let ghost p = id@;
                        let ghost ps = m[i as int].1;
                        rec.pilgrims.push((id, total));
                        rec.total = total;
                        days.insert(i, rec);
                        proof {
                            assert(pilgrims_view(rec.pilgrims@) =~= ps.push((p, total)));
                            assert(days_view(days@) =~= after_visit(m, day@, p));
                            lemma_visit_keeps_wf(m, day@, p);
                        }
                        self.days = days;
                        self.record(Journal::Append(line));
                        proof {
                            assert(self.pending().take(old(self).pending().len() as int) =~= old(self).pending());
                        }
                        Worship { day, rank: total, total, repeat: false }
                    },
                }
            },
            None => {
                let pos = insert_position(&days, &day);
                proof {
                    lemma_insert_pos(m, day@);
                }
                let line = log_line(&day, &id, 1);
                let ghost p = id@;
                let mut ps: Vec<(String, u64)> = Vec::new();
                ps.push((id, 1u64));
                let rec = DayRecord { day: day.clone(), pilgrims: ps, total: 1 };
                days.insert(pos, rec);
                proof {
                    assert(pilgrims_view(ps@) =~= seq![(p, 1u64)]);
                    let e = (day@, seq![(p, 1u64)], 1u64);
                    assert(days_view(days@) =~= m.insert(pos as int, e));
                    assert(ids_unique(e.1));
                    lemma_insert_keeps_wf(m, e);
                }
                self.days = days;
                self.record(Journal::Append(line));
                let ghost mid = self.pending();
                self.prune();
                proof {
                    let n = old(self).pending().len();
                    assert(mid.take(n as int) =~= old(self).pending());
                    if visit_prunes(old(self)@, day@) {
                        assert(self.pending().drop_last() == mid);
                        assert(self.pending().take(n as int) =~= mid.take(n as int));
                        assert(self.pending()[n as int] == mid[n as int]);
                    } else {
                        assert(self.pending() == mid);
                    }
                }
                Worship { day, rank: 1, total: 1, repeat: false }
            },
        }
    }

    /// Keeps only the latest `KEEP_DAYS` days; if that drops any, the whole
    /// log is to be written anew.
    fn prune(&mut self)
        ensures
            final(self)@ == keep_latest(old(self)@),
            final(self).salt() == old(self).salt(),
            old(self)@.len() <= KEEP_DAYS ==> final(self).pending() == old(self).pending(),
            old(self)@.len() > KEEP_DAYS ==> final(self).pending().len() == old(self).pending().len() + 1
                && final(self).pending().drop_last() == old(self).pending() && rewrites(
                final(self).pending().last(),
                log_text(final(self)@),
            ),
    {
        proof {
            use_type_invariant(&*self);
        }
        if self.days.len() <= KEEP_DAYS {
            return;
        }
        let mut days: Vec<DayRecord> = Vec::new();
        std::mem::swap(&mut days, &mut self.days);
        let ghost m = days_view(days@);
        let stale = days.len() - KEEP_DAYS;
        let kept = days.split_off(stale);
        proof {
            assert(days_view(kept@) =~= keep_latest(m));
            lemma_keep_latest_wf(m);
        }
        self.days = kept;
        let text = ledger_text(&self.days);
        self.record(Journal::Rewrite(text));
        proof {
            assert(self.journal@.drop_last() =~= old(self).journal@);
        }
    }
}


/// Where a visitor is found among a day's visitors, if at all.
pub proof fn lemma_find_id(ps: Seq<(Seq<char>, u64)>, p: Seq<char>)
    ensures
        -1 <= find_id(ps, p) < ps.len(),
        find_id(ps, p) >= 0 ==> ps[find_id(ps, p)].0 == p,
        find_id(ps, p) == -1 ==> forall|i: int| 0 <= i < ps.len() ==> (#[trigger] ps[i]).0 != p,
    decreases ps.len(),
{
    if ps.len() > 0 {
        lemma_find_id(ps.drop_last(), p);
        if ps.last().0 != p {
            if find_id(ps, p) == -1 {
                assert forall|i: int| 0 <= i < ps.len() implies (#[trigger] ps[i]).0 != p by {
                    if i < ps.len() - 1 {
                        assert(ps[i] == ps.drop_last()[i]);
                    }
                }
            }
        }
    }
}

/// Where a day is found in the ledger, if at all.
pub proof fn lemma_find_day(m: Seq<DayView>, d: Seq<char>)
    ensures
        -1 <= find_day(m, d) < m.len(),
        find_day(m, d) >= 0 ==> m[find_day(m, d)].0 == d,
        find_day(m, d) == -1 ==> forall|i: int| 0 <= i < m.len() ==> (#[trigger] m[i]).0 != d,
    decreases m.len(),
{
    if m.len() > 0 {
        lemma_find_day(m.drop_last(), d);
        if m.last().0 != d {
            if find_day(m, d) == -1 {
                assert forall|i: int| 0 <= i < m.len() implies (#[trigger] m[i]).0 != d by {
                    if i < m.len() - 1 {
                        assert(m[i] == m.drop_last()[i]);
                    }
                }
            }
        }
    }
}

/// A new day goes after every earlier day and before every later one.
pub proof fn lemma_insert_pos(m: Seq<DayView>, d: Seq<char>)
    requires
        days_sorted(m),
        forall|i: int| 0 <= i < m.len() ==> (#[trigger] m[i]).0 != d,
    ensures
        0 <= insert_pos(m, d) <= m.len(),
        forall|i: int| 0 <= i < insert_pos(m, d) ==> lex_lt((#[trigger] m[i]).0, d),
        forall|i: int| insert_pos(m, d) <= i < m.len() ==> lex_lt(d, (#[trigger] m[i]).0),
    decreases m.len(),
{
    if m.len() > 0 {
        let n = m.len() - 1;
        if lex_lt(m.last().0, d) {
            assert forall|i: int| 0 <= i < m.len() implies lex_lt((#[trigger] m[i]).0, d) by {
                if i < n {
                    lemma_lex_transitive(m[i].0, m[n].0, d);
                }
            }
        } else {
            lemma_lex_total(m.last().0, d);
            let init = m.drop_last();
            assert forall|i: int, j: int| 0 <= i < j < init.len() implies lex_lt(
                #[trigger] init[i].0,
                #[trigger] init[j].0,
            ) by {
                assert(init[i] == m[i] && init[j] == m[j]);
            }
            lemma_insert_pos(init, d);
            assert forall|i: int| insert_pos(m, d) <= i < m.len() implies lex_lt(d, (#[trigger] m[i]).0) by {
                if i < n {
                    assert(init[i] == m[i]);
                }
            }
            assert forall|i: int| 0 <= i < insert_pos(m, d) implies lex_lt((#[trigger] m[i]).0, d) by {
                assert(init[i] == m[i]);
            }
        }
    }
}

/// Where a day goes always lies within the ledger.
pub proof fn lemma_insert_pos_bound(m: Seq<DayView>, d: Seq<char>)
    ensures
        0 <= insert_pos(m, d) <= m.len(),
    decreases m.len(),
{
    if m.len() > 0 {
        lemma_insert_pos_bound(m.drop_last(), d);
    }
}

/// In a ledger with its days in order, a day is found where it stands.
pub proof fn lemma_find_day_at(m: Seq<DayView>, i: int)
    requires
        days_sorted(m),
        0 <= i < m.len(),
    ensures
        find_day(m, m[i].0) == i,
{
    let d = m[i].0;
    lemma_find_day(m, d);
    let f = find_day(m, d);
    if f != i {
        assert(f >= 0);
        lemma_lex_irreflexive(d);
        if f < i {
            assert(lex_lt(m[f].0, m[i].0));
        } else {
            assert(lex_lt(m[i].0, m[f].0));
        }
    }
}

/// A newcomer added to a day keeps the visitors of that day apart.
proof fn lemma_push_keeps_unique(ps: Seq<(Seq<char>, u64)>, p: Seq<char>, t: u64)
    requires
        ids_unique(ps),
        find_id(ps, p) < 0,
    ensures
        ids_unique(ps.push((p, t))),
{
    lemma_find_id(ps, p);
    let q = ps.push((p, t));
    assert forall|a: int, b: int| 0 <= a < b < q.len() implies (#[trigger] q[a]).0 != (#[trigger] q[b]).0 by {
        if b == q.len() - 1 {
            assert(ps[a] == q[a]);
        } else {
            assert(ps[a] == q[a] && ps[b] == q[b]);
        }
    }
}

/// A new day put where it belongs keeps the ledger in order.
proof fn lemma_insert_keeps_wf(m: Seq<DayView>, e: DayView)
    requires
        ledger_wf(m),
        find_day(m, e.0) < 0,
        ids_unique(e.1),
    ensures
        ledger_wf(m.insert(insert_pos(m, e.0), e)),
{
    let d = e.0;
    lemma_find_day(m, d);
    lemma_insert_pos(m, d);
    let pos = insert_pos(m, d);
    let m2 = m.insert(pos, e);
    assert forall|a: int, b: int| 0 <= a < b < m2.len() implies lex_lt(#[trigger] m2[a].0, #[trigger] m2[b].0) by {
        if b < pos {
            assert(m2[a] == m[a] && m2[b] == m[b]);
        } else if b == pos {
            assert(m2[a] == m[a]);
        } else if a < pos {
            assert(m2[a] == m[a] && m2[b] == m[b - 1]);
            lemma_lex_transitive(m[a].0, d, m[b - 1].0);
        } else if a == pos {
            assert(m2[b] == m[b - 1]);
        } else {
            assert(m2[a] == m[a - 1] && m2[b] == m[b - 1]);
        }
    }
    assert forall|k: int| 0 <= k < m2.len() implies ids_unique(#[trigger] m2[k].1) by {
        if k < pos {
            assert(m2[k] == m[k]);
        } else if k > pos {
            assert(m2[k] == m[k - 1]);
        }
    }
}

/// Dropping the oldest days keeps the ledger in order.
proof fn lemma_keep_latest_wf(m: Seq<DayView>)
    requires
        ledger_wf(m),
    ensures
        ledger_wf(keep_latest(m)),
{
    if m.len() > KEEP_DAYS {
        let k = m.len() - KEEP_DAYS;
        let m2 = m.skip(k);
        assert forall|a: int, b: int| 0 <= a < b < m2.len() implies lex_lt(#[trigger] m2[a].0, #[trigger] m2[b].0) by {
            assert(m2[a] == m[a + k] && m2[b] == m[b + k]);
        }
        assert forall|i: int| 0 <= i < m2.len() implies ids_unique(#[trigger] m2[i].1) by {
            assert(m2[i] == m[i + k]);
        }
    }
}

/// A visit keeps the days in order and every visitor once a day.
pub proof fn lemma_visit_keeps_wf(m: Seq<DayView>, d: Seq<char>, p: Seq<char>)
    requires
        ledger_wf(m),
    ensures
        ledger_wf(after_visit(m, d, p)),
{
    lemma_find_day(m, d);
    let i = find_day(m, d);
    if i >= 0 {
        lemma_find_id(m[i].1, p);
        if find_id(m[i].1, p) < 0 {
            let t = (m[i].2 + 1) as u64;
            let m2 = m.update(i, (d, m[i].1.push((p, t)), t));
            lemma_push_keeps_unique(m[i].1, p, t);
            assert(forall|k: int| 0 <= k < m2.len() ==> (#[trigger] m2[k]).0 == m[k].0);
            assert forall|k: int| 0 <= k < m2.len() implies ids_unique(#[trigger] m2[k].1) by {
                if k != i {
                    assert(m2[k] == m[k]);
                }
            }
        }
    } else {
        let e = (d, seq![(p, 1u64)], 1u64);
        lemma_insert_keeps_wf(m, e);
        lemma_keep_latest_wf(m.insert(insert_pos(m, d), e));
    }
}

/// Coming back the same day changes nothing and gives the first number again,
/// as long as the day of the visit is still kept (a visit on a day older than
/// all `KEEP_DAYS` days that are kept is forgotten at once).
pub proof fn law_second_visit_keeps_number(m: Seq<DayView>, d: Seq<char>, p: Seq<char>)
    requires
        ledger_wf(m),
        can_count(m, d, p),
        visit_prunes(m, d) ==> insert_pos(m, d) + KEEP_DAYS > m.len(),
    ensures
        after_visit(after_visit(m, d, p), d, p) == after_visit(m, d, p),
        visit_numbers(after_visit(m, d, p), d, p) == (visit_numbers(m, d, p).0, visit_numbers(m, d, p).1, true),
{
    lemma_find_day(m, d);
    lemma_visit_keeps_wf(m, d, p);
    let m1 = after_visit(m, d, p);
    let i = find_day(m, d);
    if i >= 0 {
        lemma_find_id(m[i].1, p);
        if find_id(m[i].1, p) < 0 {
            let t = (m[i].2 + 1) as u64;
            let ps2 = m[i].1.push((p, t));
            lemma_find_day_at(m1, i);
            assert(ps2[ps2.len() - 1].0 == p);
            assert(find_id(ps2, p) == ps2.len() - 1);
        }
    } else {
        let e = (d, seq![(p, 1u64)], 1u64);
        lemma_insert_pos_bound(m, d);
        let pos = insert_pos(m, d);
        let m2 = m.insert(pos, e);
        assert(m2[pos] == e);
        if m2.len() > KEEP_DAYS {
            let k = m2.len() - KEEP_DAYS;
            assert(m1[pos - k] == m2[pos]);
            lemma_find_day_at(m1, pos - k);
        } else {
            lemma_find_day_at(m1, pos);
        }
        assert(find_id(seq![(p, 1u64)], p) == 0);
    }
}

/// Each day numbers its visitors 1, 2, 3, ... in order of arrival, and its
/// count is how many have come.
pub open spec fn numbered_in_order(m: Seq<DayView>) -> bool {
    forall|i: int|
        0 <= i < m.len() ==> (#[trigger] m[i]).2 == m[i].1.len() && forall|j: int|
            0 <= j < m[i].1.len() ==> (#[trigger] m[i].1[j]).1 == j + 1
}

/// A visit keeps the numbers in order of arrival: a newcomer gets the next
/// number and the count grows by one.
pub proof fn law_numbers_follow_arrivals(m: Seq<DayView>, d: Seq<char>, p: Seq<char>)
    requires
        numbered_in_order(m),
        can_count(m, d, p),
    ensures
        numbered_in_order(after_visit(m, d, p)),
{
    lemma_find_day(m, d);
    let i = find_day(m, d);
    let m2 = after_visit(m, d, p);
    if i >= 0 {
        lemma_find_id(m[i].1, p);
        if find_id(m[i].1, p) < 0 {
            let t = (m[i].2 + 1) as u64;
            let ps2 = m[i].1.push((p, t));
            assert forall|k: int| 0 <= k < m2.len() implies (#[trigger] m2[k]).2 == m2[k].1.len() && forall|j: int|
                0 <= j < m2[k].1.len() ==> (#[trigger] m2[k].1[j]).1 == j + 1 by {
                if k != i {
                    assert(m2[k] == m[k]);
                } else {
                    assert forall|j: int| 0 <= j < ps2.len() implies (#[trigger] ps2[j]).1 == j + 1 by {
                        if j < m[i].1.len() {
                            assert(ps2[j] == m[i].1[j]);
                        }
                    }
                }
            }
        }
    } else {
        lemma_insert_pos_bound(m, d);
        let pos = insert_pos(m, d);
        let e = (d, seq![(p, 1u64)], 1u64);
        let m1 = m.insert(pos, e);
        assert forall|k: int| 0 <= k < m1.len() implies (#[trigger] m1[k]).2 == m1[k].1.len() && forall|j: int|
            0 <= j < m1[k].1.len() ==> (#[trigger] m1[k].1[j]).1 == j + 1 by {
            if k < pos {
                assert(m1[k] == m[k]);
            } else if k > pos {
                assert(m1[k] == m[k - 1]);
            } else {
                assert(m1[k] == e);
            }
        }
        if m1.len() > KEEP_DAYS {
            let s = m1.len() - KEEP_DAYS;
            assert forall|k: int| 0 <= k < m2.len() implies (#[trigger] m2[k]).2 == m2[k].1.len() && forall|j: int|
                0 <= j < m2[k].1.len() ==> (#[trigger] m2[k].1[j]).1 == j + 1 by {
                assert(m2[k] == m1[k + s]);
            }
        }
    }
}

/// A ledger of at most `KEEP_DAYS` days stays within that many after a visit.
pub proof fn law_at_most_keep_days(m: Seq<DayView>, d: Seq<char>, p: Seq<char>)
    requires
        m.len() <= KEEP_DAYS,
    ensures
        after_visit(m, d, p).len() <= KEEP_DAYS,
{
    lemma_find_day(m, d);
    if find_day(m, d) < 0 {
        lemma_insert_pos_bound(m, d);
    }
}

fn insert_position(days: &Vec<DayRecord>, day: &String) -> (pos: usize)
    ensures
        pos == insert_pos(days_view(days@), day@),
{
    let ghost m = days_view(days@);
    let mut i = days.len();
    proof {
        assert(m.take(i as int) =~= m);
    }
    while i > 0 && !lex_less(days[i - 1].day.as_str(), day.as_str())
        invariant
            i <= days@.len(),
            m == days_view(days@),
            insert_pos(m, day@) == insert_pos(m.take(i as int), day@),
        decreases i,
    {
        proof {
            assert(m.take(i as int).drop_last() =~= m.take(i - 1));
            assert(m.take(i as int).last() == m[i - 1]);
        }
        i = i - 1;
    }
    proof {
        if i > 0 {
            assert(m.take(i as int).last() == m[i - 1]);
        }
    }
    i
}

/// The log line for visitor `id` with number `rank` on `day`.
fn log_line(day: &String, id: &String, rank: u64) -> (s: String)
    ensures
        s@ == line_text(day@, id@, rank),
{
    let mut s = day.clone();
    push_char(&mut s, '\t');
    s.append(id.as_str());
    push_char(&mut s, '\t');
    push_decimal(&mut s, rank);
    push_char(&mut s, '\n');
    proof {
        assert(s@ =~= line_text(day@, id@, rank));
    }
    s
}

/// Sets the number of `id` on `day`, as one line of the log says.
fn upsert_day(days: &mut Vec<DayRecord>, day: String, id: String, rank: u64)
    requires
        ledger_wf(days_view(old(days)@)),
    ensures
        ledger_wf(days_view(final(days)@)),
        days_view(final(days)@) == upsert(days_view(old(days)@), day@, id@, rank),
{
    let ghost m = days_view(days@);
    let ghost d = day@;
    let ghost p = id@;
    proof {
        lemma_find_day(m, d);
    }
    match find_day_index(days, &day) {
        Some(i) => {
            let mut rec = days.remove(i);
            let ghost ps = m[i as int].1;
            proof {
                assert(rec.view() == m[i as int]);
                lemma_find_id(ps, p);
            }
            match find_id_index(&rec.pilgrims, &id) {
                Some(j) => {
                    rec.pilgrims.set(j, (id, rank));
                    proof {
                        assert(pilgrims_view(rec.pilgrims@) =~= ps.update(j as int, (p, rank)));
                        let q = ps.update(j as int, (p, rank));
                        assert forall|a: int, b: int| 0 <= a < b < q.len() implies (#[trigger] q[a]).0
                            != (#[trigger] q[b]).0 by {
                            assert(ps[a].0 != ps[b].0);
                        }
                    }
                },
                None => {
                    rec.pilgrims.push((id, rank));
                    proof {
                        assert(pilgrims_view(rec.pilgrims@) =~= ps.push((p, rank)));
                        lemma_push_keeps_unique(ps, p, rank);
                    }
                },
            }
            if rec.total < rank {
                rec.total = rank;
            }
            days.insert(i, rec);
            proof {
                let m2 = days_view(days@);
                assert(m2 =~= upsert(m, d, p, rank));
                assert(forall|k: int| 0 <= k < m2.len() ==> (#[trigger] m2[k]).0 == m[k].0);
            }
        },
        None => {
            let pos = insert_position(days, &day);
            proof {
                lemma_insert_pos(m, d);
            }
            let mut ps: Vec<(String, u64)> = Vec::new();
            ps.push((id, rank));
            let rec = DayRecord { day, pilgrims: ps, total: rank };
            days.insert(pos, rec);
            proof {
                assert(pilgrims_view(ps@) =~= seq![(p, rank)]);
                let e = (d, seq![(p, rank)], rank);
                assert(days_view(days@) =~= m.insert(pos as int, e));
                assert(ids_unique(e.1));
                lemma_insert_keeps_wf(m, e);
            }
        },
    }
}

/// Applies one line of the log, `cs[from..to]`.
fn apply_log_line(days: &mut Vec<DayRecord>, cs: &Vec<char>, from: usize, to: usize)
    requires
        from <= to <= cs@.len(),
        ledger_wf(days_view(old(days)@)),
    ensures
        ledger_wf(days_view(final(days)@)),
        days_view(final(days)@) == apply_line(days_view(old(days)@), cs@.subrange(from as int, to as int)),
{
    let fields = split_ranges(cs, from, to, '\t');
    if fields.len() < 3 {
        return;
    }
    let rank = match parse_u64_chars(cs, fields[2].0, fields[2].1) {
        Some(r) => r,
        None => {
            return ;
        },
    };
    let day = string_of(cs, fields[0].0, fields[0].1);
    let id = string_of(cs, fields[1].0, fields[1].1);
    upsert_day(days, day, id, rank);
}

/// The whole log describing `days`.
fn ledger_text(days: &Vec<DayRecord>) -> (s: String)
    ensures
        s@ == log_text(days_view(days@)),
{
    let ghost m = days_view(days@);
    let mut s = String::new();
    let mut i: usize = 0;
    while i < days.len()
        invariant
            i <= days@.len(),
            m == days_view(days@),
            s@ == days_text(m, i as int),
        decreases days@.len() - i,
    {
        let rec = &days[i];
        let ghost before = s@;
        let mut j: usize = 0;
        while j < rec.pilgrims.len()
            invariant
                i < days@.len(),
                *rec == days@[i as int],
                m == days_view(days@),
                j <= rec.pilgrims@.len(),
                s@ == before + visitors_text(m[i as int].0, m[i as int].1, j as int),
            decreases rec.pilgrims@.len() - j,
        {
            let line = log_line(&rec.day, &rec.pilgrims[j].0, rec.pilgrims[j].1);
            s.append(line.as_str());
            proof {
                assert(m[i as int].1[j as int] == (rec.pilgrims@[j as int].0@, rec.pilgrims@[j as int].1));
            }
            j = j + 1;
        }
        i = i + 1;
    }
    s
}

fn find_day_index(days: &Vec<DayRecord>, day: &String) -> (r: Option<usize>)
    ensures
        match r {
            Some(i) => i == find_day(days_view(days@), day@) && i < days@.len(),
            None => find_day(days_view(days@), day@) == -1,
        },
{
    let ghost m = days_view(days@);
    let mut i = days.len();
    proof {
        assert(m.take(i as int) =~= m);
    }
    while i > 0
        invariant
            i <= days@.len(),
            m == days_view(days@),
            find_day(m, day@) == find_day(m.take(i as int), day@),
        decreases i,
    {
        i = i - 1;
        proof {
            assert(m.take(i + 1).drop_last() =~= m.take(i as int));
            assert(m.take(i + 1).last() == m[i as int]);
        }
        if days[i].day == *day {
            return Some(i);
        }
    }
    None
}

fn find_id_index(ps: &Vec<(String, u64)>, id: &String) -> (r: Option<usize>)
    ensures
        match r {
            Some(j) => j == find_id(pilgrims_view(ps@), id@) && j < ps@.len(),
            None => find_id(pilgrims_view(ps@), id@) == -1,
        },
{
    let ghost v = pilgrims_view(ps@);
    let mut i = ps.len();
    proof {
        assert(v.take(i as int) =~= v);
    }
    while i > 0
        invariant
            i <= ps@.len(),
            v == pilgrims_view(ps@),
            find_id(v, id@) == find_id(v.take(i as int), id@),
        decreases i,
    {
        i = i - 1;
        proof {
            assert(v.take(i + 1).drop_last() =~= v.take(i as int));
            assert(v.take(i + 1).last() == v[i as int]);
        }
        if ps[i].0 == *id {
            return Some(i);
        }
    }
    None
}

} // verus!
