use pgo_co::log::{log, set_attr, set_log_dir, TabledData};
use pgo_co::text::{join, sort_texts, text_before};
use pgo_co::MAX_OPT_MILLIS;

fn strings(v: &[&str]) -> Vec<String> {
    v.iter().map(|s| s.to_string()).collect()
}

#[test]
fn budget_is_ten_seconds() {
    assert_eq!(MAX_OPT_MILLIS, 10_000);
}

#[test]
fn budget_is_spent_from_ten_seconds_on() {
    assert!(!pgo_co::clock::budget_spent(0));
    assert!(!pgo_co::clock::budget_spent(9_999));
    assert!(pgo_co::clock::budget_spent(10_000));
    assert!(pgo_co::clock::budget_spent(u128::MAX));
}

#[test]
fn a_run_that_just_began_is_not_out_of_time() {
    let start = std::time::Instant::now();
    assert!(!pgo_co::clock::out_of_time(&start));
}

#[test]
fn default_table_is_empty_and_logs_here() {
    let data = TabledData::default();
    assert!(data.seq_data.is_empty());
    assert!(data.attrs.is_empty());
    assert_eq!(data.log_path, ".");
}

#[test]
fn log_appends_to_the_column_of_the_key() {
    let mut data = TabledData::default();
    log(&mut data, "time", 1.to_string());
    log(&mut data, "fitness", 10.to_string());
    log(&mut data, "time", 2.to_string());
    assert_eq!(
        data.seq_data,
        vec![("time".to_string(), strings(&["1", "2"])), ("fitness".to_string(), strings(&["10"]))]
    );
    assert!(data.attrs.is_empty());
}

#[test]
fn set_attr_replaces_the_value_of_the_key() {
    let mut data = TabledData::default();
    set_attr(&mut data, "algorithm", "LS".to_string());
    set_attr(&mut data, "function", "main".to_string());
    set_attr(&mut data, "algorithm", "SA".to_string());
    assert_eq!(
        data.attrs,
        vec![("algorithm".to_string(), "SA".to_string()), ("function".to_string(), "main".to_string())]
    );
    assert!(data.seq_data.is_empty());
    assert_eq!(data.attr_or("algorithm", "unknown"), "SA");
    assert_eq!(data.attr_or("instance", "unknown"), "unknown");
}

#[test]
fn set_log_dir_sets_the_directory() {
    let mut data = TabledData::default();
    set_log_dir(&mut data, "/tmp/logs".to_string());
    assert_eq!(data.log_path, "/tmp/logs");
}

#[test]
fn write_renders_sorted_columns_and_clears_the_table() {
    let mut data = TabledData::default();
    set_log_dir(&mut data, "out".to_string());
    set_attr(&mut data, "algorithm", "LS".to_string());
    set_attr(&mut data, "function", "main".to_string());
    for i in 0..3 {
        log(&mut data, "time", (i * 10).to_string());
        log(&mut data, "evaluation", (i + 1).to_string());
    }
    let (name, lines) = pgo_co::log::write(&mut data, "42".to_string());
    assert_eq!(name, "out/42-LS-unknown:main.csv");
    assert_eq!(
        lines,
        strings(&[
            "algorithm,evaluation,function,id,time",
            "LS,1,main,42,0",
            "LS,2,main,42,10",
            "LS,3,main,42,20",
        ])
    );
    assert!(data.seq_data.is_empty());
    assert!(data.attrs.is_empty());
    assert_eq!(data.log_path, "out");
}

#[test]
fn write_without_columns_gives_one_row() {
    let mut data = TabledData::default();
    set_attr(&mut data, "instance", "bench".to_string());
    let (name, lines) = pgo_co::log::write(&mut data, "7".to_string());
    assert_eq!(name, "./7-unknown-bench:function.csv");
    assert_eq!(lines, strings(&["id,instance", "7,bench"]));
}

#[test]
fn write_shows_an_attribute_over_a_column_of_the_same_name() {
    let mut data = TabledData::default();
    log(&mut data, "x", "1".to_string());
    set_attr(&mut data, "x", "a".to_string());
    let (_, lines) = pgo_co::log::write(&mut data, "0".to_string());
    assert_eq!(lines, strings(&["id,x,x", "0,a,a"]));
}

#[test]
fn text_before_is_the_order_of_the_dictionary() {
    assert!(text_before("", ""));
    assert!(text_before("", "a"));
    assert!(!text_before("a", ""));
    assert!(text_before("abc", "abd"));
    assert!(!text_before("abd", "abc"));
    assert!(text_before("ab", "abc"));
    assert!(!text_before("abc", "ab"));
    assert!(text_before("abc", "abc"));
    assert!(text_before("Z", "a"));
    assert!(text_before("best fitness", "evaluation"));
    assert!(text_before("z", "é"));
    for (a, b) in [("time", "temp"), ("a b", "ab"), ("é", "z"), ("", "x")] {
        assert_eq!(text_before(a, b), a <= b);
        assert_eq!(text_before(b, a), b <= a);
    }
}

#[test]
fn sort_texts_orders_like_the_standard_sort() {
    let names = strings(&["time", "evaluation", "best fitness", "id", "algorithm", "id", ""]);
    let mut expected = names.clone();
    expected.sort();
    assert_eq!(sort_texts(names), expected);
    assert_eq!(sort_texts(vec![]), Vec::<String>::new());
}

#[test]
fn join_puts_the_separator_between_the_parts() {
    assert_eq!(join(&strings(&["a", "b", "c"]), ","), "a,b,c");
    assert_eq!(join(&strings(&["a"]), ","), "a");
    assert_eq!(join(&strings(&[]), ","), "");
    assert_eq!(join(&strings(&["", ""]), ", "), ", ");
}
