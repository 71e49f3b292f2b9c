use job_placer::nodelist::{expand_nodelist, parse_line, NodeListParseError};

fn expand(s: &str) -> Vec<String> {
    expand_nodelist(s).unwrap()
}

fn err(s: &str) -> String {
    expand_nodelist(s).unwrap_err().msg
}

#[test]
fn expands_plain_names() {
    assert_eq!(expand("lrdn0001"), vec!["lrdn0001".to_string()]);
    assert_eq!(expand("a,b,c"), vec!["a", "b", "c"]);
}

#[test]
fn expands_ranges_with_padding() {
    assert_eq!(
        expand("lrdn[0001-0003,0005]"),
        vec!["lrdn0001", "lrdn0002", "lrdn0003", "lrdn0005"]
    );
    assert_eq!(expand("n[8-11]"), vec!["n8", "n9", "n10", "n11"]);
}

#[test]
fn expands_several_bracket_groups_and_suffix() {
    assert_eq!(
        expand("r[1-2]n[01-02]"),
        vec!["r1n01", "r1n02", "r2n01", "r2n02"]
    );
    assert_eq!(expand("x[1-2]-ib"), vec!["x1-ib", "x2-ib"]);
}

#[test]
fn keeps_bracket_groups_together_when_splitting() {
    assert_eq!(expand("a[1,3],b"), vec!["a1", "a3", "b"]);
}

#[test]
fn only_the_first_word_counts() {
    assert_eq!(expand("n[1-2] trailing words"), vec!["n1", "n2"]);
}

#[test]
fn empty_input_expands_to_nothing() {
    assert_eq!(expand(""), Vec::<String>::new());
    assert_eq!(expand(",,"), Vec::<String>::new());
}

#[test]
fn reports_errors() {
    assert_eq!(err("n[1-2"), "missing closing ']'");
    assert_eq!(err("n]"), "closing ']' without matching '['");
    assert_eq!(err("n[]"), "empty bracket expression in 'n[]'");
    assert_eq!(err("n[3-1]"), "range start greater than end in '3-1'");
    assert_eq!(err("n[-1]"), "invalid range '-1'");
    assert_eq!(err("n[a-2]"), "invalid number 'a'");
    assert_eq!(err("n[1x]"), "invalid element '1x'");
}

#[test]
fn error_message_has_prefix() {
    let e = NodeListParseError::new("boom".to_string());
    assert_eq!(e.to_message(), "Invalid SLURM nodelist: boom");
}

#[test]
fn parses_key_value_words() {
    let m = parse_line("SwitchName=isw0100 Level=0 Nodes=lrdn[0001-0002] junk");
    assert_eq!(m.get("SwitchName").unwrap(), "isw0100");
    assert_eq!(m.get("Nodes").unwrap(), "lrdn[0001-0002]");
    assert!(m.get("junk").is_none());
    assert_eq!(m.len(), 3);
}

#[test]
fn later_keys_win() {
    let m = parse_line("A=1 A=2 B==x");
    assert_eq!(m.get("A").unwrap(), "2");
    assert_eq!(m.get("B").unwrap(), "=x");
}

#[test]
fn expansion_distributes_over_comma() {
    let mut both = expand("a[1-2]");
    both.extend(expand("b[07-08]x"));
    assert_eq!(expand("a[1-2],b[07-08]x"), both);
    assert_eq!(expand("a[1-2],b[07-08]x"), vec!["a1", "a2", "b07x", "b08x"]);
}

#[test]
fn comma_list_fails_when_one_side_fails() {
    assert!(expand_nodelist("b[x]").is_err());
    assert!(expand_nodelist("a[1-2],b[x]").is_err());
    assert!(expand_nodelist("b[x],a[1-2]").is_err());
}
