use nostr_db::bytes::{bytes_equal, bytes_less, bytes_start_with, copy_bytes};
use nostr_db::cursor::{first_op, Bound, CursorOp, Edge, InnerIter, Iter, Probe, SeekPlan};
use nostr_db::error::Error;
use nostr_db::tree::{pair_less, Tree};

fn table(dup: bool, entries: &[(&[u8], &[u8])]) -> Tree {
    let mut t = Tree::new(dup);
    for (k, v) in entries {
        t.put(k, v);
    }
    t
}

fn walk(t: &Tree, from: Bound, rev: bool) -> Vec<(Vec<u8>, Vec<u8>)> {
    let mut it = Iter::new(t, from, rev);
    let mut out = vec![];
    while let Some((k, v)) = it.next() {
        out.push((k.clone(), v.clone()));
    }
    assert_eq!(it.next(), None);
    out
}

fn keys(items: &[(Vec<u8>, Vec<u8>)]) -> Vec<Vec<u8>> {
    items.iter().map(|x| [x.0.clone(), x.1.clone()].concat()).collect()
}

fn strs(items: &[&str]) -> Vec<Vec<u8>> {
    items.iter().map(|s| s.as_bytes().to_vec()).collect()
}

#[test]
fn byte_order_is_lexicographic() {
    assert!(bytes_less(b"a", b"b"));
    assert!(bytes_less(b"a", b"ab"));
    assert!(bytes_less(b"", b"a"));
    assert!(!bytes_less(b"a", b"a"));
    assert!(!bytes_less(b"b", b"ab"));
    assert!(bytes_less(&[1, 255], &[2]));
    assert!(bytes_equal(b"ab", b"ab"));
    assert!(!bytes_equal(b"ab", b"abc"));
    assert!(bytes_start_with(b"abc", b"ab"));
    assert!(bytes_start_with(b"abc", b""));
    assert!(!bytes_start_with(b"ab", b"abc"));
    assert_eq!(copy_bytes(b"xyz"), b"xyz".to_vec());
    assert!(pair_less(b"a", b"z", b"b", b"a"));
    assert!(pair_less(b"a", b"1", b"a", b"2"));
    assert!(!pair_less(b"a", b"2", b"a", b"2"));
}

#[test]
fn single_valued_table_overwrites() {
    let mut t = Tree::new(false);
    t.put(b"b", b"1");
    t.put(b"a", b"2");
    t.put(b"b", b"3");
    assert_eq!(t.len(), 2);
    assert_eq!(t.get(b"b"), Some(b"3".to_vec()));
    assert_eq!(t.get(b"a"), Some(b"2".to_vec()));
    assert_eq!(t.get(b"c"), None);
    assert_eq!(t.key_at(0), &b"a".to_vec());
    assert_eq!(t.value_at(1), &b"3".to_vec());
    // the value is ignored where a key has one value
    t.del(b"b", Some(b"other"));
    assert_eq!(t.get(b"b"), None);
    t.del(b"b", None);
    assert_eq!(t.len(), 1);
    assert!(!t.is_dup());
}

#[test]
fn duplicate_sorted_table_keeps_values_in_order() {
    let mut t = Tree::new(true);
    t.put(b"k", b"3");
    t.put(b"k", b"1");
    t.put(b"k", b"2");
    t.put(b"k", b"2");
    t.put(b"j", b"9");
    assert_eq!(t.len(), 4);
    assert_eq!(t.get(b"k"), Some(b"1".to_vec()));
    assert_eq!(keys(&walk(&t, Bound::Unbounded, false)), strs(&["j9", "k1", "k2", "k3"]));
    t.del(b"k", Some(b"2"));
    assert_eq!(keys(&walk(&t, Bound::Unbounded, false)), strs(&["j9", "k1", "k3"]));
    t.del(b"k", Some(b"7"));
    assert_eq!(t.len(), 3);
    t.del(b"k", None);
    assert_eq!(keys(&walk(&t, Bound::Unbounded, false)), strs(&["j9"]));
    assert!(t.is_dup());
}

#[test]
fn bounds_on_a_table_with_several_values() {
    let t = table(true, &[(b"a", b"1"), (b"c", b"1"), (b"c", b"2"), (b"c", b"3"), (b"e", b"1")]);
    assert_eq!(t.lower_bound_key(b"c"), 1);
    assert_eq!(t.upper_bound_key(b"c"), 4);
    assert_eq!(t.lower_bound(b"c", b"2"), 2);
    assert_eq!(t.lower_bound_key(b"d"), 4);
    assert_eq!(t.lower_bound_key(b"z"), 5);
    assert_eq!(t.upper_bound_key(b""), 0);
}

#[test]
fn walks_upwards() {
    let t = table(true, &[(b"a", b"1"), (b"c", b"1"), (b"c", b"2"), (b"e", b"1")]);
    let b = |s: &str| s.as_bytes().to_vec();
    assert_eq!(keys(&walk(&t, Bound::Unbounded, false)), strs(&["a1", "c1", "c2", "e1"]));
    assert_eq!(keys(&walk(&t, Bound::Included(b("c")), false)), strs(&["c1", "c2", "e1"]));
    assert_eq!(keys(&walk(&t, Bound::Included(b("b")), false)), strs(&["c1", "c2", "e1"]));
    assert_eq!(keys(&walk(&t, Bound::Included(b("f")), false)), strs(&[]));
    assert_eq!(keys(&walk(&t, Bound::Excluded(b("c")), false)), strs(&["e1"]));
    assert_eq!(keys(&walk(&t, Bound::Excluded(b("b")), false)), strs(&["c1", "c2", "e1"]));
    assert_eq!(keys(&walk(&t, Bound::Excluded(b("e")), false)), strs(&[]));
    assert_eq!(keys(&walk(&t, Bound::Excluded(b("f")), false)), strs(&[]));
}

#[test]
fn walks_downwards() {
    let t = table(true, &[(b"a", b"1"), (b"c", b"1"), (b"c", b"2"), (b"e", b"1")]);
    let b = |s: &str| s.as_bytes().to_vec();
    assert_eq!(keys(&walk(&t, Bound::Unbounded, true)), strs(&["e1", "c2", "c1", "a1"]));
    assert_eq!(keys(&walk(&t, Bound::Included(b("c")), true)), strs(&["c2", "c1", "a1"]));
    assert_eq!(keys(&walk(&t, Bound::Included(b("d")), true)), strs(&["c2", "c1", "a1"]));
    assert_eq!(keys(&walk(&t, Bound::Included(b("z")), true)), strs(&["e1", "c2", "c1", "a1"]));
    assert_eq!(keys(&walk(&t, Bound::Included(b("")), true)), strs(&[]));
    assert_eq!(keys(&walk(&t, Bound::Excluded(b("c")), true)), strs(&["a1"]));
    assert_eq!(keys(&walk(&t, Bound::Excluded(b("d")), true)), strs(&["c2", "c1", "a1"]));
    assert_eq!(keys(&walk(&t, Bound::Excluded(b("a")), true)), strs(&[]));
    assert_eq!(keys(&walk(&t, Bound::Excluded(b("z")), true)), strs(&["e1", "c2", "c1", "a1"]));
}

#[test]
fn walks_over_single_values() {
    let t = table(false, &[(b"a", b"1"), (b"c", b"2"), (b"e", b"3")]);
    let b = |s: &str| s.as_bytes().to_vec();
    assert_eq!(keys(&walk(&t, Bound::Included(b("c")), true)), strs(&["c2", "a1"]));
    assert_eq!(keys(&walk(&t, Bound::Excluded(b("c")), true)), strs(&["a1"]));
    assert_eq!(keys(&walk(&t, Bound::Excluded(b("c")), false)), strs(&["e3"]));
    assert_eq!(keys(&walk(&t, Bound::Included(b("c")), false)), strs(&["c2", "e3"]));
    let empty = Tree::new(false);
    assert_eq!(keys(&walk(&empty, Bound::Unbounded, true)), strs(&[]));
    assert_eq!(keys(&walk(&empty, Bound::Included(b("c")), false)), strs(&[]));
}

#[test]
fn a_walk_can_be_placed_again() {
    let t = table(true, &[(b"a", b"1"), (b"c", b"1"), (b"e", b"1")]);
    let mut it = Iter::new(&t, Bound::Unbounded, false);
    assert_eq!(it.next().map(|x| x.0.clone()), Some(b"a".to_vec()));
    it.seek(Bound::Excluded(b"e".to_vec()), true);
    assert_eq!(it.next().map(|x| x.0.clone()), Some(b"c".to_vec()));
    assert_eq!(it.next().map(|x| x.0.clone()), Some(b"a".to_vec()));
    assert_eq!(it.next(), None);
    it.seek(Bound::Included(b"d".to_vec()), false);
    assert_eq!(it.next().map(|x| x.0.clone()), Some(b"e".to_vec()));
    assert_eq!(it.next(), None);
}

#[test]
fn cursor_moves() {
    let t = table(true, &[(b"a", b"1"), (b"c", b"1"), (b"c", b"2"), (b"e", b"1")]);
    let mut c = InnerIter::new(&t);
    assert_eq!(c.get(CursorOp::GetCurrent), None);
    assert_eq!(c.get(CursorOp::Next), Some(0));
    assert_eq!(c.get(CursorOp::NextNoDup), Some(1));
    assert_eq!(c.get(CursorOp::LastDup), Some(2));
    assert_eq!(c.get(CursorOp::NextNoDup), Some(3));
    assert_eq!(c.get(CursorOp::Next), None);
    assert_eq!(c.get(CursorOp::Prev), Some(3));
    assert_eq!(c.get(CursorOp::PrevNoDup), Some(2));
    assert_eq!(c.get(CursorOp::Prev), Some(1));
    assert_eq!(c.get(CursorOp::PrevNoDup), Some(0));
    assert_eq!(c.get(CursorOp::PrevNoDup), None);
    assert_eq!(c.get(CursorOp::First), Some(0));
    assert_eq!(c.get(CursorOp::Last), Some(3));
    assert_eq!(c.get_by_key(b"b"), Some(1));
    assert_eq!(c.get(CursorOp::GetCurrent), Some(1));
    assert_eq!(c.get_by_key(b"z"), None);
    assert_eq!(c.get(CursorOp::LastDup), None);
}

#[test]
fn first_step_of_a_walk() {
    let plan = |op, last_dup| SeekPlan { op, last_dup };
    assert_eq!(first_op(true, Edge::Included, true, Probe::Above), plan(CursorOp::Prev, false));
    assert_eq!(first_op(true, Edge::Included, true, Probe::Same), plan(CursorOp::GetCurrent, true));
    assert_eq!(first_op(true, Edge::Included, false, Probe::Same), plan(CursorOp::GetCurrent, false));
    assert_eq!(first_op(true, Edge::Included, true, Probe::Nothing), plan(CursorOp::Last, false));
    assert_eq!(first_op(true, Edge::Excluded, true, Probe::Same), plan(CursorOp::PrevNoDup, false));
    assert_eq!(first_op(true, Edge::Excluded, false, Probe::Above), plan(CursorOp::Prev, false));
    assert_eq!(first_op(true, Edge::Excluded, false, Probe::Nothing), plan(CursorOp::Last, false));
    assert_eq!(first_op(true, Edge::Unbounded, false, Probe::Nothing), plan(CursorOp::Last, false));
    assert_eq!(first_op(false, Edge::Included, true, Probe::Same), plan(CursorOp::GetCurrent, false));
    assert_eq!(first_op(false, Edge::Excluded, true, Probe::Same), plan(CursorOp::NextNoDup, false));
    assert_eq!(first_op(false, Edge::Excluded, false, Probe::Same), plan(CursorOp::Next, false));
    assert_eq!(first_op(false, Edge::Excluded, true, Probe::Above), plan(CursorOp::GetCurrent, false));
    assert_eq!(first_op(false, Edge::Unbounded, true, Probe::Nothing), plan(CursorOp::First, false));
}

#[test]
fn copy_of_a_table_is_equal_and_apart() {
    let t = table(true, &[(b"a", b"1"), (b"c", b"1")]);
    let mut c = t.copy();
    c.put(b"b", b"1");
    assert_eq!(t.len(), 2);
    assert_eq!(c.len(), 3);
    assert!(c.is_dup());
}

#[test]
fn error_messages() {
    assert_eq!(Error::Hex.message(), "invalid hex");
    assert_eq!(Error::InvalidLength.message(), "invalid length");
    assert_eq!(Error::Serialization.message(), "serialization failed");
    assert_eq!(Error::Substrate.message(), "store is full");
}
