use duptool::quarantine::{plan_moves, quarantine_dir, sanitize_name, sanitize_path, should_move, strip_root, to_long_path};
use duptool::record::{DuplicateGroup, PartKind, PathPart};

fn part(s: &str) -> PathPart {
    PathPart { kind: PartKind::Normal, text: s.to_string() }
}

fn path(parts: &[&str]) -> Vec<PathPart> {
    parts.iter().map(|p| part(p)).collect()
}

fn texts(p: &[PathPart]) -> Vec<String> {
    p.iter().map(|c| c.text.clone()).collect()
}

fn group(first: &[&[&str]], second: &[&[&str]]) -> DuplicateGroup {
    DuplicateGroup {
        size: 4,
        first: first.iter().map(|p| path(p)).collect(),
        second: second.iter().map(|p| path(p)).collect(),
    }
}

#[test]
fn normal_mode_moves_into_deleted() {
    let groups = vec![group(&[&["a", "x.txt"]], &[&["b", "x.txt"]])];
    let steps = plan_moves(&groups, &path(&["a"]), &path(&["b"]), false);
    assert_eq!(steps.len(), 1);
    assert_eq!(texts(&steps[0].source), vec!["a", "x.txt"]);
    assert_eq!(texts(&steps[0].target), vec!["a", "deleted", "x.txt"]);
    assert_eq!(texts(steps[0].counterpart.as_ref().unwrap()), vec!["b", "x.txt"]);
    assert!(should_move(&steps[0], true));
    assert!(!should_move(&steps[0], false));
    assert_eq!(texts(&quarantine_dir(&path(&["a"]))), vec!["a", "deleted"]);
}

#[test]
fn force_mode_moves_without_check() {
    let groups = vec![
        group(&[&["r", "d", "one"], &["r", "two"]], &[]),
        group(&[&["elsewhere", "three"]], &[&["s", "three"]]),
    ];
    let steps = plan_moves(&groups, &path(&["r"]), &path(&["s"]), true);
    assert_eq!(steps.len(), 2);
    assert_eq!(texts(&steps[0].target), vec!["r", "deleted", "d", "one"]);
    assert_eq!(texts(&steps[1].target), vec!["r", "deleted", "two"]);
    for s in &steps {
        assert!(s.counterpart.is_none());
        assert!(should_move(s, false));
    }
}

#[test]
fn targets_are_sanitized() {
    let groups = vec![group(&[&["r", "we?ird: ", "f*le<1>.txt"]], &[])];
    let steps = plan_moves(&groups, &path(&["r"]), &path(&["s"]), false);
    assert_eq!(texts(&steps[0].source), vec!["r", "we?ird: ", "f*le<1>.txt"]);
    assert_eq!(texts(&steps[0].target), vec!["r", "deleted", "we_ird_", "f_le_1_.txt"]);
    assert_eq!(texts(steps[0].counterpart.as_ref().unwrap()), vec!["s", "we?ird: ", "f*le<1>.txt"]);
}

#[test]
fn name_sanitizing() {
    assert_eq!(sanitize_name(&"a<b>c:d\"e|f?g*h".to_string()), "a_b_c_d_e_f_g_h");
    assert_eq!(sanitize_name(&"name   ".to_string()), "name");
    assert_eq!(sanitize_name(&"   ".to_string()), "");
    assert_eq!(sanitize_name(&"x * ".to_string()), "x _");
    assert_eq!(sanitize_name(&"plain.txt".to_string()), "plain.txt");
}

#[test]
fn path_sanitizing_keeps_special_components() {
    let p = vec![
        PathPart { kind: PartKind::Root, text: "/".to_string() },
        PathPart { kind: PartKind::Parent, text: "..".to_string() },
        part("a:b "),
    ];
    let s = sanitize_path(&p);
    assert_eq!(texts(&s), vec!["/", "..", "a_b"]);
    assert_eq!(s[0].kind, PartKind::Root);
}

#[test]
fn stripping_the_root() {
    assert_eq!(strip_root(&path(&["a", "b", "c"]), &path(&["a", "b"])).map(|r| texts(&r)), Some(vec!["c".to_string()]));
    assert!(strip_root(&path(&["a", "b"]), &path(&["a", "c"])).is_none());
    assert!(strip_root(&path(&["a"]), &path(&["a", "b"])).is_none());
    assert_eq!(strip_root(&path(&["a"]), &path(&[])).map(|r| r.len()), Some(1));
}

#[test]
fn long_paths_on_windows() {
    let long = "C:\\".to_string() + &"d".repeat(300);
    assert_eq!(to_long_path(&long, true), format!("\\\\?\\{}", long));
    assert_eq!(to_long_path(&long, false), long);
    assert_eq!(to_long_path("C:\\short", true), "C:\\short");
    let already = format!("\\\\?\\{}", long);
    assert_eq!(to_long_path(&already, true), already);
}
