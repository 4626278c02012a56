use wikitui::perflog::{event_line, frame_fields, mark_fields, typeahead_fields, ENV_VAR};

#[test]
fn frame_and_typeahead_events_are_the_shape_the_harness_reads() {
    let line = event_line(0, &frame_fields(1234, "Reading", 42, 7));
    let frame: serde_json::Value = serde_json::from_str(&line).unwrap();
    assert_eq!(frame["ev"], "frame");
    assert_eq!(frame["draw_us"], 1234);
    assert_eq!(frame["mode"], "Reading");
    assert_eq!(frame["scroll"], 42);
    assert_eq!(frame["n"], 7);
    let line = event_line(0, &typeahead_fields(3000, 10));
    let typeahead: serde_json::Value = serde_json::from_str(&line).unwrap();
    assert_eq!(typeahead["ev"], "typeahead_render");
    assert_eq!(typeahead["us"], 3000);
    assert_eq!(typeahead["suggestions"], 10);
}

#[test]
fn a_log_line_is_one_json_object() {
    assert_eq!(
        event_line(17, &mark_fields("ready")),
        "{\"t_us\":17,\"ev\":\"mark\",\"phase\":\"ready\"}\n"
    );
    assert_eq!(
        frame_fields(5, "Toc", 0, 0),
        "\"ev\":\"frame\",\"n\":0,\"draw_us\":5,\"mode\":\"Toc\",\"scroll\":0"
    );
    assert_eq!(ENV_VAR, "WIKITUI_PERF_LOG");
}
