//! A course as the query service describes it, and the decision to report a
//! free seat in it.

use vstd::prelude::*;

use crate::text::{decimal, law_decimal_reads_back, parse_i32, push_decimal};

verus! {

/// One course as the query service describes it.
pub struct Course {
    /// `CourseName`
    pub course_name: String,
    /// `CourseNo`
    pub course_no: String,
    /// `Restrict2`: the most students the course takes.
    pub restrict2: i32,
    /// `ChooseStudent`: the students that have chosen it so far.
    pub choose_student: i32,
}

/// `name no (chosen/limit)`, the line that reports a course.
pub open spec fn course_message(c: Course) -> Seq<char> {
    c.course_name@ + seq![' '] + c.course_no@ + seq![' ', '('] + decimal(c.choose_student as int)
        + seq!['/'] + decimal(c.restrict2 as int) + seq![')']
}

impl Course {
    /// A course has a free seat when its limit is above the number of
    /// students that have chosen it.
    pub open spec fn seat_free(&self) -> bool {
        self.restrict2 - self.choose_student > 0
    }

    pub fn has_seat(&self) -> (r: bool)
        ensures
            r == self.seat_free(),
    {
        (self.restrict2 as i64) - (self.choose_student as i64) > 0
    }

    /// The line that reports this course: `name no (chosen/limit)`.
    pub fn message(&self) -> (r: String)
        ensures
            r@ == course_message(*self),
    {
        proof {
            reveal_strlit(" ");
            reveal_strlit(" (");
            reveal_strlit("/");
            reveal_strlit(")");
        }
        let mut out = String::new();
        out.append(self.course_name.as_str());
        out.append(" ");
        out.append(self.course_no.as_str());
        out.append(" (");
        push_decimal(&mut out, self.choose_student as i64);
        out.append("/");
        push_decimal(&mut out, self.restrict2 as i64);
        out.append(")");
        assert(out@ =~= course_message(*self));
        out
    }
}


/// The body of a query for one course: its number, the language of the
/// answer and the semester.
pub struct CourseQuery {
    /// `CourseNo`
    pub course_no: String,
    /// `Language`
    pub language: String,
    /// `Semester`
    pub semester: String,
}

/// The query for course `course_no` in `semester`, answered in Chinese (`zh`).
pub fn course_query(semester: &str, course_no: &str) -> (q: CourseQuery)
    ensures
        q.course_no@ == course_no@,
        q.language@ == seq!['z', 'h'],
        q.semester@ == semester@,
{
    proof {
        reveal_strlit("zh");
    }
    CourseQuery {
        course_no: course_no.to_string(),
        language: "zh".to_string(),
        semester: semester.to_string(),
    }
}

/// Why a query for a course gave no course.
pub enum CourseError {
    /// The answer listed no course; it holds the number that was asked for.
    NotFound(String),
}

/// The course that answers a query for `course_no`: the first that the
/// answer lists.
pub fn first_course(courses: Vec<Course>, course_no: &str) -> (r: Result<Course, CourseError>)
    ensures
        courses@.len() > 0 ==> r == Ok::<Course, CourseError>(courses@[0]),
        courses@.len() == 0 ==> (r matches Err(CourseError::NotFound(n)) && n@ == course_no@),
{
    let mut courses = courses;
    if courses.len() > 0 {
        Ok(courses.remove(0))
    } else {
        Err(CourseError::NotFound(course_no.to_string()))
    }
}

/// What to do about a course with a free seat: the line to print, whether
/// to raise a system notification, and whether to post the line to the
/// webhook.
pub struct Alert {
    pub message: String,
    pub notify: bool,
    pub post_webhook: bool,
}

/// Decides what to do about `course`: nothing while it has no free seat;
/// otherwise print its line, raise a system notification when `sys_notify`
/// is set, and post to the webhook when one is configured (not empty).
pub fn plan_alert(course: &Course, sys_notify: bool, webhook: &str) -> (r: Option<Alert>)
    ensures
        r is Some <==> course.seat_free(),
        r matches Some(a) ==> {
            &&& a.message@ == course_message(*course)
            &&& a.notify == sys_notify
            &&& a.post_webhook == (webhook@.len() > 0)
        },
{
    if course.has_seat() {
        Some(
            Alert {
                message: course.message(),
                notify: sys_notify,
                post_webhook: webhook.unicode_len() > 0,
            },
        )
    } else {
        None
    }
}

} // verus!

verus! {

/// A course has a free seat exactly when fewer students have chosen it than
/// it takes.
pub proof fn law_seat_free_iff_room(c: Course)
    ensures
        c.seat_free() <==> (c.choose_student as int) < (c.restrict2 as int),
{
}

/// The report line of a course is its whole name, a space, its whole number,
/// then in brackets two counts separated by `/` that read back as the number
/// of students that chose it and the most it takes.
pub proof fn law_message_shows_course(c: Course)
    ensures
        course_message(c).take(c.course_name@.len() + 1int) == c.course_name@.push(' '),
        exists|x: Seq<char>, y: Seq<char>|
            #![trigger parse_i32(x), parse_i32(y)]
            course_message(c) == c.course_name@ + seq![' '] + c.course_no@ + seq![' ', '('] + x
                + seq!['/'] + y + seq![')'] && parse_i32(x) == Some(c.choose_student) && parse_i32(
                y,
            ) == Some(c.restrict2),
{
    law_decimal_reads_back(c.choose_student);
    law_decimal_reads_back(c.restrict2);
    let x = decimal(c.choose_student as int);
    let y = decimal(c.restrict2 as int);
    assert(parse_i32(x) == Some(c.choose_student));
    assert(parse_i32(y) == Some(c.restrict2));
    assert(course_message(c).take(c.course_name@.len() + 1int) =~= c.course_name@.push(' '));
}

} // verus!
