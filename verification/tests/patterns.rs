use gcard::chance::sample_seed;
use gcard::pattern::{make_alt_key, AltKey, PathPattern, StarStatKey};
use gcard::query::FunctionalDirection;
use gcard::sizes::{alt_key_serialized_size, star_key_serialized_size, string_bincode_size};
use gcard::union_find::UnionFind;

fn texts(labels: &[&str]) -> Vec<String> {
    labels.iter().map(|l| l.to_string()).collect()
}

fn path(vs: &[&str], es: &[&str]) -> PathPattern {
    PathPattern::new_without_reverse(texts(vs), texts(es))
}

#[test]
fn patterns_are_written_in_their_first_direction() {
    let pattern = PathPattern::new(texts(&["b", "a"]), texts(&["e"]));
    assert_eq!(pattern.vs, texts(&["a", "b"]));
    let kept = path(&["b", "a"], &["e"]);
    assert_eq!(kept.vs, texts(&["b", "a"]));
    assert!(kept.canonical().same_as(&pattern));
    assert!(kept.reversed().same_as(&pattern));
    assert!(kept.reversed().reversed().same_as(&kept));
    assert!(pattern.canonical().canonical().same_as(&pattern.canonical()));
}

#[test]
fn edges_decide_between_palindromes() {
    let pattern = PathPattern::new(texts(&["a", "b", "a"]), texts(&["z", "y"]));
    assert_eq!(pattern.es, texts(&["y", "z"]));
}

#[test]
fn suffixes_drop_the_first_vertex() {
    let suffix = path(&["a", "b", "c"], &["x", "y"]).suffix();
    assert_eq!((suffix.vs, suffix.es), (texts(&["b", "c"]), texts(&["y"])));
}

#[test]
fn keys_ignore_the_direction() {
    let forth = path(&["a", "b", "c"], &["x", "y"]).to_alt_key();
    let back = path(&["c", "b", "a"], &["y", "x"]).to_alt_key();
    assert!(forth.same_as(&back));
    assert_eq!(forth.normalized, texts(&["a", "x", "b", "y", "c"]));
    assert_eq!(back.raw, texts(&["c", "y", "b", "x", "a"]));
    assert!(!forth.same_as(&make_alt_key(&texts(&["a", "b", "c"]), &texts(&["y", "x"]))));
    assert!(forth.same_as(&AltKey::new(texts(&["a", "x", "b", "y", "c"]))));
}

#[test]
fn star_keys_ignore_the_order_of_arms() {
    let one = StarStatKey::new(
        "c".to_string(),
        vec![path(&["c", "b"], &["y"]), path(&["c", "a", "d"], &["x", "z"])],
    );
    let two = StarStatKey::new(
        "c".to_string(),
        vec![path(&["c", "a", "d"], &["x", "z"]), path(&["c", "b"], &["y"])],
    );
    assert!(one.same_as(&two));
    assert_eq!((one.degree, one.max_arm_len), (2, 2));
    assert_eq!(
        one.to_text(),
        "star(center=c, degree=2, max_arm_len=2, arms=[c -x-> a -z-> d | c -y-> b])"
    );
    let none = StarStatKey::new("c".to_string(), vec![]);
    assert_eq!((none.degree, none.max_arm_len), (0, 0));
    assert_eq!(none.to_text(), "star(center=c, degree=0, max_arm_len=0, arms=[])");
}

#[test]
fn patterns_are_shown_with_arrows() {
    assert_eq!(path(&["a", "b"], &["e"]).to_text(), "a -e-> b");
    assert_eq!(path(&["a"], &[]).to_text(), "a");
}

#[test]
fn sizes_count_bytes() {
    assert_eq!(string_bincode_size(""), 8);
    assert_eq!(string_bincode_size("abc"), 11);
    assert_eq!(string_bincode_size("\u{e4}"), 10);
    let key = path(&["ab", "c"], &["e"]).to_alt_key();
    assert_eq!(alt_key_serialized_size(&key), 2 * (8 + 10 + 9 + 9));
    let star = StarStatKey::new("ab".to_string(), vec![path(&["ab", "c"], &["e"])]);
    assert_eq!(star_key_serialized_size(&star), 10 + 24 + 8 + 10 + 9 + 8 + 9);
}

#[test]
fn seeds_depend_on_every_byte() {
    assert_eq!(sample_seed(""), 0xcbf29ce484222325);
    assert_eq!(sample_seed("a"), 0xaf63dc4c8601ec8c);
    assert_eq!(sample_seed("foobar"), 0x85944171f73967e8);
}

#[test]
fn sets_are_joined() {
    let mut sets = UnionFind::new();
    for x in 1..=4 {
        sets.make_set(x);
    }
    assert!(sets.union(1, 2));
    assert!(sets.union(3, 4));
    assert!(!sets.union(2, 1));
    assert_eq!(sets.find(1), sets.find(2));
    assert_ne!(sets.find(1), sets.find(3));
    assert!(sets.union(1, 4));
    assert_eq!(sets.find(2), sets.find(3));
}

#[test]
fn flags_tell_the_direction() {
    for (forth, back) in [(false, false), (true, false), (false, true), (true, true)] {
        let direction = FunctionalDirection::from_flags(forth, back);
        assert_eq!(direction.is_functional_src_to_dst(), forth);
        assert_eq!(direction.is_functional_dst_to_src(), back);
    }
}
