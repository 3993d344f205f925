use request_shadow::divergence::shared_prefix;
use request_shadow::{BodyDiff, Divergence, IgnoreField, ResponseRecord, ShadowConfig};

#[test]
fn shared_prefix_counts_leading_equal_bytes() {
    assert_eq!(shared_prefix(b"hello world", b"hello earth"), 6);
    assert_eq!(shared_prefix(b"abc", b"abc"), 3);
    assert_eq!(shared_prefix(b"abc", b"abcdef"), 3);
    assert_eq!(shared_prefix(b"", b"abc"), 0);
    assert_eq!(shared_prefix(b"xbc", b"abc"), 0);
}

#[test]
fn compare_equal_records_is_none() {
    let p = ResponseRecord::ok(b"same".to_vec()).with_header("h", "v");
    let s = p.clone();
    assert!(Divergence::compare(&p, &s, &ShadowConfig::full_sample()).is_none());
}

#[test]
fn compare_reports_every_field() {
    let p = ResponseRecord::ok(b"abcd".to_vec())
        .with_header("gone", "1")
        .with_header("same", "s")
        .with_header("diff", "a");
    let s = ResponseRecord::err(404, b"abx".to_vec())
        .with_header("same", "s")
        .with_header("diff", "b")
        .with_header("new", "2");
    let d = Divergence::compare(&p, &s, &ShadowConfig::full_sample()).unwrap();
    assert_eq!(d.status, Some((200, 404)));
    assert_eq!(
        d.body,
        Some(BodyDiff { primary_len: 4, shadow_len: 3, prefix_equal_bytes: 2 })
    );
    let h = d.headers.unwrap();
    assert_eq!(h.added, vec!["new".to_string()]);
    assert_eq!(h.removed, vec!["gone".to_string()]);
    assert_eq!(h.changed, vec!["diff".to_string()]);
}

#[test]
fn header_lists_come_in_name_order() {
    let p = ResponseRecord::ok(vec![]).with_header("z", "1").with_header("b", "1").with_header("m", "1");
    let s = ResponseRecord::ok(vec![]).with_header("y", "1").with_header("a", "1");
    let h = Divergence::compare(&p, &s, &ShadowConfig::full_sample()).unwrap().headers.unwrap();
    assert_eq!(h.removed, vec!["b", "m", "z"]);
    assert_eq!(h.added, vec!["a", "y"]);
    assert!(h.changed.is_empty());
}

#[test]
fn ignore_list_silences_each_field() {
    let p = ResponseRecord::ok(b"a".to_vec()).with_header("k", "1");
    let s = ResponseRecord::err(500, b"b".to_vec()).with_header("k", "2");
    let cfg = ShadowConfig::full_sample().ignore(IgnoreField::Status);
    let d = Divergence::compare(&p, &s, &cfg).unwrap();
    assert!(d.status.is_none() && d.headers.is_some() && d.body.is_some());
    let cfg = cfg.ignore(IgnoreField::Headers);
    let d = Divergence::compare(&p, &s, &cfg).unwrap();
    assert!(d.headers.is_none() && d.body.is_some());
    let cfg = cfg.ignore(IgnoreField::Body);
    assert!(Divergence::compare(&p, &s, &cfg).is_none());
}

#[test]
fn swapping_sides_swaps_the_report() {
    let p = ResponseRecord::ok(b"abcd".to_vec()).with_header("only-p", "1");
    let s = ResponseRecord::err(500, b"ab".to_vec()).with_header("only-s", "1");
    let cfg = ShadowConfig::full_sample();
    let d = Divergence::compare(&p, &s, &cfg).unwrap();
    let e = Divergence::compare(&s, &p, &cfg).unwrap();
    let dc = d.clone();
    assert_eq!(dc, d);
    assert_eq!(e.status, Some((500, 200)));
    assert_eq!(d.status, Some((200, 500)));
    let (db, eb) = (d.body.unwrap(), e.body.unwrap());
    assert_eq!((db.primary_len, db.shadow_len), (eb.shadow_len, eb.primary_len));
    assert_eq!(db.prefix_equal_bytes, eb.prefix_equal_bytes);
    let (dh, eh) = (d.headers.unwrap(), e.headers.unwrap());
    assert_eq!(dh.added, eh.removed);
    assert_eq!(dh.removed, eh.added);
}
