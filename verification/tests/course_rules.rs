use course_kudasai::course::{course_query, first_course, plan_alert, Course, CourseError};

fn course(name: &str, no: &str, restrict2: i32, choose_student: i32) -> Course {
    Course {
        course_name: name.to_string(),
        course_no: no.to_string(),
        restrict2,
        choose_student,
    }
}

#[test]
fn message_reads_like_the_readme() {
    let c = course("視窗程式設計", "CS2005701", 35, 12);
    assert_eq!(c.message(), "視窗程式設計 CS2005701 (12/35)");
}

#[test]
fn message_with_negative_and_extreme_counts() {
    let c = course("", "X", i32::MIN, -1);
    assert_eq!(c.message(), " X (-1/-2147483648)");
}

#[test]
fn seat_free_when_limit_above_chosen() {
    assert!(course("a", "b", 35, 12).has_seat());
    assert!(!course("a", "b", 35, 35).has_seat());
    assert!(!course("a", "b", 30, 35).has_seat());
    assert!(course("a", "b", 1, 0).has_seat());
    assert!(course("a", "b", i32::MAX, -1).has_seat());
    assert!(!course("a", "b", i32::MIN, 1).has_seat());
}

#[test]
fn alert_only_with_a_free_seat() {
    let full = course("a", "b", 10, 10);
    assert!(plan_alert(&full, true, "https://example.invalid/hook").is_none());
    let open = course("名", "CC1253301", 10, 9);
    let a = plan_alert(&open, true, "https://example.invalid/hook").unwrap();
    assert_eq!(a.message, "名 CC1253301 (9/10)");
    assert!(a.notify);
    assert!(a.post_webhook);
}

#[test]
fn empty_webhook_means_no_post() {
    let open = course("a", "b", 2, 1);
    let a = plan_alert(&open, false, "").unwrap();
    assert!(!a.notify);
    assert!(!a.post_webhook);
}

#[test]
fn query_in_chinese() {
    let q = course_query("1141", "CS2005701");
    assert_eq!(q.course_no, "CS2005701");
    assert_eq!(q.language, "zh");
    assert_eq!(q.semester, "1141");
}

#[test]
fn first_listed_course_answers() {
    let got = first_course(vec![course("a", "1", 1, 0), course("b", "2", 1, 0)], "1").ok().unwrap();
    assert_eq!(got.course_name, "a");
    match first_course(vec![], "CS1") {
        Err(CourseError::NotFound(no)) => assert_eq!(no, "CS1"),
        Ok(_) => panic!("no course was listed"),
    }
}
