use battery_log::dict::Dict;
use battery_log::filters::{
    date10, icon, markdown, placement, static_url, svg, title_case,
};
use battery_log::helpers::{
    id_list, page_numbers, parse_id_spec, parse_positive_int, safe_path, unsigned_number,
    whole_number,
};
use battery_log::links::{by_name, parse_query, query_string, redirect_target, with_query};
use battery_log::list::{list_url, open_query, understand, Filters};
use battery_log::reads::is_like;
use battery_log::view::{flag_or_usual, FieldFlag};

#[test]
fn a_list_of_ids_mixes_numbers_and_ranges() {
    assert_eq!(parse_id_spec("1, 3, 5-8, 12").unwrap(), vec![1, 3, 5, 6, 7, 8, 12]);
    assert_eq!(parse_id_spec("9-7").unwrap(), vec![7, 8, 9]);
    assert_eq!(parse_id_spec(" , ,").unwrap(), Vec::<i64>::new());
    assert_eq!(parse_id_spec("1-200").unwrap().len(), 200);
    assert_eq!(parse_id_spec("4,1-201").unwrap_err(), "\"1-201\" spans more than 200 ids.");
    assert_eq!(parse_id_spec("1, two").unwrap_err(), "\"two\" is not a valid id or range.");
    assert_eq!(parse_id_spec("-5").unwrap_err(), "\"-5\" is not a valid id or range.");
    assert_eq!(
        parse_id_spec("1--9223372036854775808").unwrap_err(),
        "\"1--9223372036854775808\" spans more than 200 ids."
    );
}

#[test]
fn numbers_are_read_as_they_are_typed() {
    assert_eq!(parse_positive_int(" 7 "), Some(7));
    assert_eq!(parse_positive_int("0"), None);
    assert_eq!(parse_positive_int(""), None);
    assert_eq!(whole_number("-3"), Some(-3));
    assert_eq!(whole_number("3.5"), None);
    assert_eq!(unsigned_number("", "Capacity"), Ok(None));
    assert_eq!(unsigned_number("+8", "Capacity"), Ok(Some(8)));
    assert_eq!(unsigned_number("-8", "Capacity"), Err("Capacity cannot be negative.".to_string()));
    assert_eq!(unsigned_number("8x", "Capacity"), Err("Capacity must be a whole number.".to_string()));
}

#[test]
fn page_numbers_leave_gaps() {
    assert_eq!(page_numbers(1, 1), Vec::<i64>::new());
    assert_eq!(page_numbers(1, 2), vec![1, 2]);
    assert_eq!(page_numbers(5, 10), vec![1, 0, 3, 4, 5, 6, 7, 0, 10]);
    assert_eq!(page_numbers(1, 10), vec![1, 2, 3, 0, 10]);
    assert_eq!(page_numbers(i64::MAX, i64::MAX).last(), Some(&i64::MAX));
}

#[test]
fn a_path_never_leads_to_another_host() {
    assert_eq!(safe_path("/b/1", "/"), "/b/1");
    assert_eq!(safe_path("//evil.example", "/"), "/");
    assert_eq!(safe_path("http://evil.example", "/"), "/");
    assert_eq!(safe_path("", "/x"), "/x");
}

#[test]
fn labels_are_listed_in_three_places() {
    assert_eq!(id_list(&vec![1, 20, 300, 4000]), "001, 020, 300, 4000");
    assert_eq!(id_list(&vec![]), "");
}

// ── Links ───────────────────────────────────────────────────────────────

#[test]
fn a_query_reads_back() {
    let query = query_string(&vec![("q", "a&b=c d"), ("empty", ""), ("name", "Été")]);
    assert_eq!(query, "q=a%26b%3Dc+d&name=%C3%89t%C3%A9");
    let read = parse_query(&query);
    assert_eq!(read.get("q").map(|s| s.as_str()), Some("a&b=c d"));
    assert_eq!(read.get("name").map(|s| s.as_str()), Some("Été"));
    assert!(read.get("empty").is_none());
    assert_eq!(parse_query("a=1&a=2").get("a").map(|s| s.as_str()), Some("2"));
    assert_eq!(query_string(&vec![("a", "")]), "");
}

#[test]
fn a_redirect_keeps_the_query_of_its_path() {
    let go = |path: &str, pairs: Vec<(&str, &str)>| redirect_target(path, &pairs);
    assert_eq!(go("/x", vec![]), ("/x".to_string(), None));
    assert_eq!(go("/x", vec![("msg", "hi")]), ("/x".to_string(), Some("msg=hi".to_string())));
    assert_eq!(go("/?show=all", vec![]), ("/".to_string(), Some("show=all".to_string())));
    assert_eq!(
        go("/?show=all", vec![("msg", "hi")]),
        ("/".to_string(), Some("show=all&msg=hi".to_string()))
    );
}

#[test]
fn a_key_stands_once_in_a_dictionary() {
    let mut d: Dict<i64> = Dict::new();
    d.insert("a", 1);
    d.insert("b", 2);
    d.insert("a", 3);
    assert_eq!(d.len(), 2);
    assert_eq!(d.get("a"), Some(&3));
    assert!(d.contains_key("b") && !d.contains_key("c"));
}

// ── Filters ─────────────────────────────────────────────────────────────

#[test]
fn words_are_capitalised() {
    assert_eq!(title_case("full analysis"), "Full Analysis");
    assert_eq!(title_case("  ärger ßen"), "  Ärger SSen");
    assert_eq!(title_case(""), "");
}

#[test]
fn dates_are_the_first_ten_characters() {
    assert_eq!(date10("2026-01-02T03:04:05+00:00"), "2026-01-02");
    assert_eq!(date10("2026"), "2026");
}

#[test]
fn joined_lists_name_the_ids_of_both() {
    let (a, b) = ("1, 3", "9-7,4");
    let mut both = parse_id_spec(a).unwrap();
    both.extend(parse_id_spec(b).unwrap());
    assert_eq!(parse_id_spec(&format!("{a},{b}")).unwrap(), both);
    assert_eq!(both, vec![1, 3, 7, 8, 9, 4]);
    assert_eq!(parse_id_spec("1,x,y"), parse_id_spec("x,2,y"));
    assert_eq!(parse_id_spec("1,x,y").unwrap_err(), "\"x\" is not a valid id or range.");
}

#[test]
fn a_range_may_start_at_either_end() {
    assert_eq!(parse_id_spec(" 5 - 9 "), parse_id_spec("9-5"));
    assert_eq!(parse_id_spec("9-5").unwrap(), vec![5, 6, 7, 8, 9]);
    assert!(parse_id_spec("1-201").is_err() && parse_id_spec("201-1").is_err());
}

#[test]
fn markdown_becomes_html() {
    assert_eq!(markdown("*hello* ~~you~~"), "<p><em>hello</em> <del>you</del></p>\n");
    assert_eq!(markdown(""), "");
    assert!(markdown("a|b\n-|-\n1|2").starts_with("<table>"));
    assert!(markdown("a[^1]\n\n[^1]: b").contains("footnote-reference"));
}

#[test]
fn icons_take_a_class() {
    assert_eq!(svg("move-up").as_deref(), Some("move-up.svg"));
    assert_eq!(svg("unknown"), None);
    assert_eq!(icon("<svg width=\"1\"><svg ", "big"), "<svg class=\"big\" width=\"1\"><svg ");
    assert_eq!(icon("<svg width=\"1\">", ""), "<svg width=\"1\">");
    assert_eq!(icon("<b>", "big"), "<b>");
    assert_eq!(static_url("app.js"), "/app.js");
}

// ── The window ──────────────────────────────────────────────────────────

#[test]
fn opens_at_half_the_width_and_all_the_height_of_the_work_area() {
    // A 3440x1440 ultrawide with a 48px taskbar, and a window whose
    // frame is 16 wide and 39 tall.
    let put = placement(0, 0, 3440, 1392, 16, 39);

    assert_eq!(put.inner_width + 16, 1720, "outer width should be half the work area");
    assert_eq!(put.inner_height + 39, 1392, "outer height should be the whole work area");
    assert_eq!(put.x, 860, "centred: a quarter of the width free on each side");
    assert_eq!(put.y, 0);
}

#[test]
fn follows_a_work_area_that_does_not_start_at_the_origin() {
    // A second monitor to the right of a 1920-wide one.
    let put = placement(1920, 0, 1920, 1040, 16, 39);

    assert_eq!(put.x, 1920 + 480);
    assert_eq!(put.inner_width + 16, 960);
}

#[test]
fn a_pattern_goes_back_to_its_last_wildcard() {
    assert!(is_like("", "") && !is_like("", "a"));
    assert!(is_like("%", "") && is_like("%%", "abc"));
    assert!(is_like("a%", "a") && !is_like("a%", "ba"));
    assert!(is_like("%ab%c", "aabXabYc") && !is_like("%ab%c", "aabXabYcd"));
    assert!(is_like("%aab", "aaaab") && !is_like("%aab", "aaaaba"));
    assert!(is_like("a_c%_", "abcd") && !is_like("a_c%_", "abc"));
    assert!(is_like("%B_D%", "xabcdx") && !is_like("_", ""));
    assert!(!is_like("%\u{c9}%", "caf\u{e9}"));
}

#[test]
fn a_very_long_note_can_be_searched() {
    let note = "a".repeat(1_000_000);
    assert!(!is_like("%ab%", &note));
    assert!(is_like("%ab%", &format!("{note}b")));
}

#[test]
fn of_two_values_with_one_name_the_later_counts() {
    let pair = |k: &str, v: &str| (k.to_string(), v.to_string());
    let read = by_name(&vec![pair("a", "1"), pair("b", "2"), pair("a", "3")]);
    assert_eq!(read.get("a").map(|s| s.as_str()), Some("3"));
    assert_eq!(read.get("b").map(|s| s.as_str()), Some("2"));
    assert_eq!(read.get("c"), None);
}

#[test]
fn a_query_is_added_to_the_one_that_is_there() {
    let go = |path: &str, extra: &str| with_query(path, extra);
    assert_eq!(go("/b/1", ""), ("/b/1".to_string(), None));
    assert_eq!(go("/b/1", "x=1"), ("/b/1".to_string(), Some("x=1".to_string())));
    assert_eq!(go("/b/1?y=2", ""), ("/b/1".to_string(), Some("y=2".to_string())));
    assert_eq!(go("/b/1?y=2", "x=1"), ("/b/1".to_string(), Some("y=2&x=1".to_string())));
    assert_eq!((list_url(""), list_url("x=1")), ("/".to_string(), "/?x=1".to_string()));
    assert_eq!((open_query(""), open_query("x=1")), (String::new(), "x=1&".to_string()));
}

#[test]
fn unknown_scopes_and_orders_give_way() {
    let asked = |show: &str, sort: &str| Filters {
        show: show.to_string(),
        type_filter: "AA".to_string(),
        location_filter: "Drawer".to_string(),
        search: "x".to_string(),
        sort: sort.to_string(),
    };
    let f = understand(asked("nonsense", "nonsense"));
    assert_eq!((f.show.as_str(), f.sort.as_str()), ("active", "id"));
    assert_eq!((f.type_filter.as_str(), f.location_filter.as_str(), f.search.as_str()), ("AA", "Drawer", "x"));
    let f = understand(asked("flagged", "resistance"));
    assert_eq!((f.show.as_str(), f.sort.as_str()), ("flagged", "resistance"));
}

#[test]
fn a_field_is_shown_and_not_asked_for_unless_said() {
    assert_eq!(flag_or_usual(None, None), FieldFlag { visible: true, required: false });
    assert_eq!(flag_or_usual(Some(false), Some(true)), FieldFlag { visible: false, required: true });
    assert_eq!(flag_or_usual(Some(true), Some(false)), FieldFlag { visible: true, required: false });
}
