use mazu::counter::{Counter, Journal, KEEP_DAYS};

fn replay(log: &mut String, journal: Vec<Journal>) {
    for entry in journal {
        match entry {
            Journal::Append(text) => log.push_str(&text),
            Journal::Rewrite(text) => *log = text,
        }
    }
}

#[test]
fn same_visitor_keeps_first_rank() {
    let mut log = String::new();
    let mut c = Counter::open(&log, "salt".into());

    let a = c.worship("1.1.1.1");
    let b = c.worship("2.2.2.2");
    let a2 = c.worship("1.1.1.1");

    assert_eq!((a.rank, a.repeat), (1, false));
    assert_eq!((b.rank, b.repeat), (2, false));
    assert_eq!((a2.rank, a2.repeat), (1, true));
    assert_eq!(a2.total, 2);

    // numbers survive a restart
    replay(&mut log, c.take_journal());
    let mut c = Counter::open(&log, "salt".into());
    let a3 = c.worship("1.1.1.1");
    assert_eq!((a3.rank, a3.repeat, a3.total), (1, true, 2));
    let d = c.worship("3.3.3.3");
    assert_eq!(d.rank, 3);
}

#[test]
fn visits_are_logged_one_line_each() {
    let mut c = Counter::open("", "s".into());
    let w = c.worship_on("2024-01-01".into(), "aa".into());
    assert_eq!((w.day.as_str(), w.rank, w.total, w.repeat), ("2024-01-01", 1, 1, false));
    c.worship_on("2024-01-01".into(), "bb".into());
    let again = c.worship_on("2024-01-01".into(), "aa".into());
    assert_eq!((again.rank, again.total, again.repeat), (1, 2, true));
    let j = c.take_journal();
    assert_eq!(j.len(), 2);
    assert!(matches!(&j[0], Journal::Append(t) if t == "2024-01-01\taa\t1\n"));
    assert!(matches!(&j[1], Journal::Append(t) if t == "2024-01-01\tbb\t2\n"));
    assert!(c.take_journal().is_empty());
}

#[test]
fn each_day_counts_from_one() {
    let mut c = Counter::open("", "s".into());
    c.worship_on("2024-01-01".into(), "aa".into());
    c.worship_on("2024-01-01".into(), "bb".into());
    let next = c.worship_on("2024-01-02".into(), "aa".into());
    assert_eq!((next.rank, next.total, next.repeat), (1, 1, false));
}

#[test]
fn loading_skips_garbled_lines() {
    let log = "2024-01-01\taa\t1\nhalf a line\n2024-01-01\tbb\tx\n2024-01-01\tcc\t+2\textra\r\n2024-01-01\tdd\t-3\n";
    let mut c = Counter::open(log, "s".into());
    let again = c.worship_on("2024-01-01".into(), "cc".into());
    assert_eq!((again.rank, again.total, again.repeat), (2, 2, true));
    let new = c.worship_on("2024-01-01".into(), "bb".into());
    assert_eq!(new.rank, 3);
}

#[test]
fn a_later_line_overrides_the_number_and_the_count_is_the_highest() {
    let log = "d\taa\t5\nd\taa\t1";
    let mut c = Counter::open(log, "s".into());
    let again = c.worship_on("d".into(), "aa".into());
    assert_eq!((again.rank, again.total), (1, 5));
    let new = c.worship_on("d".into(), "bb".into());
    assert_eq!(new.rank, 6);
}

#[test]
fn only_the_latest_days_are_kept() {
    let mut c = Counter::open("", "s".into());
    for d in 0..KEEP_DAYS {
        c.worship_on(format!("2024-01-{:02}", d + 1), "aa".into());
    }
    assert_eq!(c.take_journal().len(), KEEP_DAYS);
    c.worship_on("2024-02-01".into(), "aa".into());
    let j = c.take_journal();
    assert_eq!(j.len(), 2);
    assert!(matches!(&j[0], Journal::Append(t) if t == "2024-02-01\taa\t1\n"));
    match &j[1] {
        Journal::Rewrite(t) => {
            assert!(!t.contains("2024-01-01"));
            assert!(t.starts_with("2024-01-02\taa\t1\n"));
            assert!(t.ends_with("2024-02-01\taa\t1\n"));
            assert_eq!(t.lines().count(), KEEP_DAYS);
        }
        Journal::Append(_) => panic!("expected a rewrite"),
    }
    // the dropped day starts afresh
    let old = c.worship_on("2024-01-01".into(), "aa".into());
    assert!(!old.repeat);
}

#[test]
fn the_identity_is_hashed_with_the_salt() {
    let c = Counter::open("", "mazu".into());
    let id = c.pilgrim_id("1.1.1.1");
    assert_eq!(id.len(), 16);
    assert_eq!(id, mazu::sha256::short_hex(b"mazu:1.1.1.1"));
    let other = Counter::open("", "other".into());
    assert_ne!(other.pilgrim_id("1.1.1.1"), id);
}

#[test]
fn reopening_after_many_visits_keeps_every_number() {
    let mut log = String::new();
    let mut c = Counter::open(&log, "s".into());
    let mut given = Vec::new();
    for day in 1..=3 {
        for v in 0..12 {
            let w = c.worship_on(format!("2024-03-0{day}"), format!("v{v}"));
            given.push((w.day.clone(), format!("v{v}"), w.rank, w.total));
        }
        replay(&mut log, c.take_journal());
    }
    let mut again = Counter::open(&log, "s".into());
    for (day, id, rank, _) in &given {
        let w = again.worship_on(day.clone(), id.clone());
        assert_eq!((w.rank, w.repeat, w.total), (*rank, true, 12));
    }
    assert!(again.take_journal().is_empty());
}

#[test]
fn reopening_after_a_rewrite_keeps_every_number() {
    let mut log = String::new();
    let mut c = Counter::open(&log, "s".into());
    for d in 0..=KEEP_DAYS {
        c.worship_on(format!("2024-01-{:02}", d + 1), "aa".into());
        c.worship_on(format!("2024-01-{:02}", d + 1), "bb".into());
        replay(&mut log, c.take_journal());
    }
    assert!(!log.contains("2024-01-01"));
    let mut again = Counter::open(&log, "s".into());
    let w = again.worship_on("2024-01-31".into(), "bb".into());
    assert_eq!((w.rank, w.total, w.repeat), (2, 2, true));
    let w = again.worship_on("2024-01-02".into(), "aa".into());
    assert_eq!((w.rank, w.total, w.repeat), (1, 2, true));
}

#[test]
fn coming_back_changes_nothing() {
    let mut c = Counter::open("", "s".into());
    let first = c.worship_on("2024-05-05".into(), "aa".into());
    c.take_journal();
    let second = c.worship_on("2024-05-05".into(), "aa".into());
    assert_eq!((second.rank, second.total, second.repeat), (first.rank, first.total, true));
    assert!(c.take_journal().is_empty());
}

#[test]
fn a_full_day_has_no_room_for_newcomers() {
    let log = "2024-06-01\tfull\t18446744073709551615\n";
    let c = Counter::open(log, "s".into());
    assert!(c.has_room(&"full".to_string()));
    assert!(!c.has_room(&"newcomer".to_string()));
    let fresh = Counter::open("", "s".into());
    assert!(fresh.has_room(&"anyone".to_string()));
}

#[test]
fn numbers_follow_arrivals() {
    let mut c = Counter::open("", "s".into());
    for n in 1..=5u64 {
        let w = c.worship_on("2024-07-07".into(), format!("p{n}"));
        assert_eq!((w.rank, w.total, w.repeat), (n, n, false));
    }
    let w = c.worship_on("2024-07-07".into(), "p3".into());
    assert_eq!((w.rank, w.total, w.repeat), (3, 5, true));
}
