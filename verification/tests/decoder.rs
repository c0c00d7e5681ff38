use om_fast_parser::{HitObject, HitObjectType, OsuParser};

fn parsed(content: &str) -> OsuParser {
    let mut parser = OsuParser::new();
    parser.parse_content(content.as_bytes());
    parser
}

fn times(parser: &OsuParser) -> Vec<i32> {
    parser.hit_objects.iter().map(|obj| obj.time).collect()
}

#[test]
fn new_parser_is_empty() {
    let parser = OsuParser::new();
    assert_eq!(parser.mode, 0);
    assert!(parser.hit_objects.is_empty());
}

#[test]
fn empty_file() {
    let parser = parsed("");
    assert_eq!(parser.mode, 0);
    assert!(parser.hit_objects.is_empty());
}

#[test]
fn mode_capture_only() {
    let parser = parsed("[General]\nMode: 3\n");
    assert_eq!(parser.mode, 3);
    assert!(parser.hit_objects.is_empty());
}

#[test]
fn single_point_hit_in_mania() {
    let parser = parsed("[General]\nMode: 3\n[HitObjects]\n64,192,1000,1,0,0:0:0:0:\n");
    assert_eq!(parser.mode, 3);
    assert_eq!(
        parser.hit_objects,
        vec![HitObject {
            x: 64,
            y: 192,
            time: 1000,
            object_type: HitObjectType::Circle,
            end_time: None
        }]
    );
}

#[test]
fn single_sustain_in_mania() {
    let parser = parsed("[General]\nMode: 3\n[HitObjects]\n192,192,2000,128,0,3500:0:0:0:0\n");
    assert_eq!(parser.hit_objects.len(), 1);
    let obj = &parser.hit_objects[0];
    assert_eq!(obj.x, 192);
    assert_eq!(obj.time, 2000);
    assert_eq!(obj.object_type, HitObjectType::Hold);
    assert_eq!(obj.end_time, Some(3500));
}

#[test]
fn sustain_bit_in_other_mode() {
    let parser = parsed("[General]\nMode: 0\n[HitObjects]\n192,192,2000,128,0,3500:0:0:0:0\n");
    assert_eq!(parser.mode, 0);
    assert_eq!(parser.hit_objects.len(), 1);
    assert_eq!(parser.hit_objects[0].object_type, HitObjectType::Circle);
    assert_eq!(parser.hit_objects[0].end_time, None);
}

#[test]
fn comments_and_blank_lines() {
    let parser = parsed(
        "// header\n\n[General]\nMode: 3\n\n[HitObjects]\n64,192,1000,1,0,0:0:0:0:\n\n// note\n192,192,2000,128,0,3500:0:0:0:0\n",
    );
    assert_eq!(parser.mode, 3);
    assert_eq!(times(&parser), vec![1000, 2000]);
    assert_eq!(parser.hit_objects[0].object_type, HitObjectType::Circle);
    assert_eq!(parser.hit_objects[1].end_time, Some(3500));
}

#[test]
fn single_slash_line_is_a_comment() {
    let parser = parsed("[HitObjects]\n/1,2,3,1\n4,5,6,1\n");
    assert_eq!(times(&parser), vec![6]);
}

#[test]
fn last_line_needs_no_line_feed() {
    let parser = parsed("[HitObjects]\n1,2,30,1");
    assert_eq!(times(&parser), vec![30]);
}

#[test]
fn carriage_returns_belong_to_the_line_ending() {
    let parser = parsed("[General]\r\nMode: 3\r\n\r\n[HitObjects]\r\n1,2,30,128,0,45\r\n1,2,40,1\r\n");
    assert_eq!(parser.mode, 3);
    assert_eq!(times(&parser), vec![30, 40]);
    assert_eq!(parser.hit_objects[0].end_time, Some(45));
}

#[test]
fn only_first_mode_line_counts() {
    let parser = parsed("[General]\nMode: 3\nMode: 1\n[HitObjects]\n1,2,3,128,0,9:\n");
    assert_eq!(parser.mode, 3);
    assert_eq!(parser.hit_objects[0].object_type, HitObjectType::Hold);
}

#[test]
fn mode_line_before_any_header_counts() {
    let parser = parsed("Mode:2\n[General]\nMode: 3\n");
    assert_eq!(parser.mode, 2);
}

#[test]
fn mode_line_inside_hit_objects_is_no_mode() {
    let parser = parsed("[HitObjects]\nMode: 3\n[General]\nMode: 1\n");
    assert_eq!(parser.mode, 1);
    assert_eq!(parser.hit_objects.len(), 1);
    assert_eq!(parser.hit_objects[0].time, 0);
}

#[test]
fn mode_is_reduced_to_eight_bits() {
    assert_eq!(parsed("Mode: 259\n").mode, 3);
    assert_eq!(parsed("Mode: -1\n").mode, 255);
    assert_eq!(parsed("Mode:\n").mode, 0);
    assert_eq!(parsed("Mode: x\n").mode, 0);
}

#[test]
fn unknown_mode_gives_points_only() {
    let parser = parsed("Mode: 7\n[HitObjects]\n1,2,3,128,0,9:\n1,2,4,128,0,9:\n");
    assert_eq!(parser.mode, 7);
    assert_eq!(parser.hit_objects.len(), 2);
    assert!(parser.hit_objects.iter().all(|obj| obj.object_type == HitObjectType::Circle));
    assert!(parser.hit_objects.iter().all(|obj| obj.end_time.is_none()));
}

#[test]
fn section_reentry_collects_both_spans() {
    let parser = parsed(
        "[HitObjects]\n1,1,10,1\n1,1,20,1\n[General]\n1,1,30,1\n[HitObjects]\n1,1,40,1\n[Metadata]\n1,1,50,1\n[HitObjects]\n1,1,60,1\n",
    );
    assert_eq!(times(&parser), vec![10, 20, 40, 60]);
}

#[test]
fn lines_outside_hit_objects_are_not_decoded() {
    let parser = parsed("1,1,10,1\n[General]\n1,1,20,1\n[Difficulty]\n1,1,30,1\n");
    assert!(parser.hit_objects.is_empty());
}

#[test]
fn objects_keep_input_order() {
    let parser = parsed("[HitObjects]\n1,1,300,1\n1,1,100,1\n1,1,200,1\n1,1,100,1\n");
    assert_eq!(times(&parser), vec![300, 100, 200, 100]);
}

#[test]
fn mode_in_force_when_the_line_is_reached() {
    let parser = parsed("[HitObjects]\n1,1,10,128,0,15:\n[General]\nMode: 3\n[HitObjects]\n1,1,20,128,0,25:\n");
    assert_eq!(parser.mode, 3);
    assert_eq!(parser.hit_objects[0].object_type, HitObjectType::Circle);
    assert_eq!(parser.hit_objects[0].end_time, None);
    assert_eq!(parser.hit_objects[1].object_type, HitObjectType::Hold);
    assert_eq!(parser.hit_objects[1].end_time, Some(25));
}

#[test]
fn a_second_parse_appends() {
    let mut parser = OsuParser::new();
    parser.parse_content(b"Mode: 3\n[HitObjects]\n1,1,10,128,0,15:\n");
    parser.parse_content(b"[HitObjects]\n1,1,20,128,0,25:\n");
    assert_eq!(parser.mode, 3);
    assert_eq!(times(&parser), vec![10, 20]);
    assert_eq!(parser.hit_objects[1].end_time, Some(25));
    parser.parse_content(b"Mode: 0\n[HitObjects]\n1,1,30,128,0,35:\n");
    assert_eq!(parser.mode, 0);
    assert_eq!(times(&parser), vec![10, 20, 30]);
    assert_eq!(parser.hit_objects[2].end_time, None);
}

#[test]
fn end_time_present_exactly_for_holds() {
    let parser = parsed(
        "Mode: 3\n[HitObjects]\n1,1,10,128,0,15:\n1,1,20,1,0,0:\n1,1,30,128\n\n1,1,40,5,0,1:2\n",
    );
    assert_eq!(parser.hit_objects.len(), 4);
    for obj in &parser.hit_objects {
        assert_eq!(obj.end_time.is_some(), obj.object_type == HitObjectType::Hold);
    }
}

#[test]
fn no_holds_unless_mode_three() {
    for mode in ["0", "1", "2", "4", "131"] {
        let content = format!("Mode: {}\n[HitObjects]\n1,1,10,128,0,15:\n1,1,20,255,0,15:\n", mode);
        let parser = parsed(&content);
        assert!(parser.mode != 3);
        assert!(parser.get_holds().is_empty());
        assert_eq!(parser.get_circles().len(), 2);
    }
}
