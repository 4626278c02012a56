use wikitui::line_file::rewrite_first;

fn lines() -> Vec<String> {
    vec!["a".to_string(), "b".to_string(), "c".to_string()]
}

#[test]
fn the_first_hit_is_replaced_in_its_place() {
    assert_eq!(
        rewrite_first(&lines(), &vec![false, true, true], Some("x".to_string())),
        Some(vec!["a".to_string(), "x".to_string(), "c".to_string()])
    );
}

#[test]
fn without_a_hit_nothing_is_written() {
    assert_eq!(rewrite_first(&lines(), &vec![false, false, false], None), None);
    assert_eq!(rewrite_first(&Vec::new(), &Vec::new(), Some("x".to_string())), None);
}
