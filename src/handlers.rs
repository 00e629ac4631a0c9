use crate::models::{StoreError, Task};
use vstd::prelude::*;
use vstd::string::*;

verus! {

/// The page that lists all tasks, newest first.
pub struct IndexTemplate {
    pub tasks: Vec<Task>,
}

/// Why a request failed, by kind.
#[derive(Debug)]
pub enum AppError {
    /// A malformed or missing field in the request.
    InvalidInput(String),
    /// No task has the requested id.
    NotFound,
    /// The store could not complete the operation.
    StoreUnavailable(String),
}

/// What a reply carries.
#[derive(Debug)]
pub enum Body {
    Task(Task),
    Tasks(Vec<Task>),
    Text(String),
    Empty,
}

/// An HTTP status and the body sent with it.
#[derive(Debug)]
pub struct Reply {
    pub status: u16,
    pub body: Body,
}

pub open spec fn status_of(e: AppError) -> u16 {
    match e {
        AppError::InvalidInput(_) => 400,
        AppError::NotFound => 404,
        AppError::StoreUnavailable(_) => 500,
    }
}

/// The reply for an id that no task has.
pub open spec fn is_not_found_reply(r: Reply) -> bool {
    r.status == 404 && (r.body matches Body::Text(m) && m@ == not_found_text())
}

pub open spec fn not_found_text() -> Seq<char> {
    "Task not found"@
}

impl AppError {
    /// The HTTP status of the error kind.
    pub fn status(&self) -> (r: u16)
        ensures
            r == status_of(*self),
    {
        match self {
            AppError::InvalidInput(_) => 400,
            AppError::NotFound => 404,
            AppError::StoreUnavailable(_) => 500,
        }
    }

    /// A short description of the error.
    pub fn message(&self) -> (r: String)
        ensures
            *self matches AppError::InvalidInput(m) ==> r@ == m@,
            *self matches AppError::StoreUnavailable(m) ==> r@ == m@,
            *self is NotFound ==> r@ == not_found_text(),
    {
        match self {
            AppError::InvalidInput(m) => m.clone(),
            AppError::NotFound => "Task not found".to_string(),
            AppError::StoreUnavailable(m) => m.clone(),
        }
    }

    /// The reply sent for the error: its status and its description.
    pub fn into_response(self) -> (r: Reply)
        ensures
            r.status == status_of(self),
            r.body matches Body::Text(m) && (self matches AppError::InvalidInput(e) ==> m@ == e@)
                && (self matches AppError::StoreUnavailable(e) ==> m@ == e@) && (self is NotFound
                ==> m@ == not_found_text()),
    {
        let status = self.status();
        let text = self.message();
        Reply { status, body: Body::Text(text) }
    }

    /// The request-level error for a store failure.
    pub fn from_store(e: StoreError) -> (r: AppError)
        ensures
            e == StoreError::InvalidInput ==> r is InvalidInput,
            e == StoreError::Unavailable ==> r is StoreUnavailable,
    {
        match e {
            StoreError::InvalidInput => AppError::InvalidInput("title must not be empty".to_string()),
            StoreError::Unavailable => AppError::StoreUnavailable(
                "storage unavailable".to_string(),
            ),
        }
    }
}

pub open spec fn is_digit(c: char) -> bool {
    '0' <= c <= '9'
}

/// The number that a string of decimal digits denotes.
pub open spec fn digits_value(s: Seq<char>) -> int
    decreases s.len(),
{
    if s.len() == 0 {
        0
    } else {
        digits_value(s.drop_last()) * 10 + (s.last() as int - '0' as int)
    }
}

pub open spec fn is_negative(s: Seq<char>) -> bool {
    s.len() > 0 && s[0] == '-'
}

/// The digits of an id text, after an optional sign.
pub open spec fn id_digits(s: Seq<char>) -> Seq<char> {
    if s.len() > 0 && (s[0] == '-' || s[0] == '+') {
        s.drop_first()
    } else {
        s
    }
}

/// The largest magnitude an id of the given sign can have.
pub open spec fn id_limit(negative: bool) -> int {
    if negative {
        i64::MAX + 1
    } else {
        i64::MAX as int
    }
}

/// An optional sign followed by at least one decimal digit, in the range of
/// a 64-bit signed integer.
pub open spec fn valid_id_text(s: Seq<char>) -> bool {
    let d = id_digits(s);
    &&& d.len() > 0
    &&& forall|i: int| 0 <= i < d.len() ==> is_digit(#[trigger] d[i])
    &&& digits_value(d) <= id_limit(is_negative(s))
}

/// The integer that a valid id text denotes.
pub open spec fn id_value(s: Seq<char>) -> int {
    if is_negative(s) {
        -digits_value(id_digits(s))
    } else {
        digits_value(id_digits(s))
    }
}

proof fn lemma_digits_grow(s: Seq<char>, i: int, j: int)
    requires
        0 <= i <= j <= s.len(),
        forall|k: int| 0 <= k < s.len() ==> is_digit(#[trigger] s[k]),
    ensures
        digits_value(s.take(i)) <= digits_value(s.take(j)),
    decreases j - i,
{
    if i < j {
        lemma_digits_grow(s, i, j - 1);
        assert(s.take(j).drop_last() =~= s.take(j - 1));
        assert(digits_value(s.take(j - 1)) >= 0) by {
            lemma_digits_nonneg(s.take(j - 1));
        }
    }
}

proof fn lemma_digits_nonneg(s: Seq<char>)
    requires
        forall|k: int| 0 <= k < s.len() ==> is_digit(#[trigger] s[k]),
    ensures
        digits_value(s) >= 0,
    decreases s.len(),
{
    if s.len() > 0 {
        lemma_digits_nonneg(s.drop_last());
    }
}

/// Reads a task id from a path segment: an optional sign and decimal digits
/// that fit a 64-bit signed integer. Anything else is `InvalidInput`.
pub fn parse_id(segment: &str) -> (r: Result<i64, AppError>)
    ensures
        r is Ok <==> valid_id_text(segment@),
        r matches Ok(v) ==> v as int == id_value(segment@),
        r is Err ==> r->Err_0 is InvalidInput,
{
    let n = segment.unicode_len();
    let mut start: usize = 0;
    let mut negative = false;
    if n > 0 {
        let c = segment.get_char(0);
        if c == '-' {
            start = 1;
            negative = true;
        } else if c == '+' {
            start = 1;
        }
    }
    let ghost s = segment@;
    let ghost d = id_digits(s);
    assert(d =~= s.skip(start as int));
    if start == n {
        return Err(AppError::InvalidInput("invalid task id".to_string()));
    }
    let limit: u128 = if negative {
        9223372036854775808
    } else {
        9223372036854775807
    };
    let mut m: u128 = 0;
    let mut i: usize = start;
    assert(d.take(0) =~= Seq::<char>::empty());
    while i < n
        invariant
            start <= i <= n,
            n == s.len(),
            s == segment@,
            d == s.skip(start as int),
            d == id_digits(s),
            limit == id_limit(negative),
            negative == is_negative(s),
            m <= limit,
            forall|k: int| 0 <= k < i - start ==> is_digit(#[trigger] d[k]),
            m == digits_value(d.take(i - start)),
        decreases n - i,
    {
        let c = segment.get_char(i);
        assert(d.len() == n - start);
        assert(d[i - start] == c);
        if !('0' <= c && c <= '9') {
            assert(!is_digit(d[i - start]));
            return Err(AppError::InvalidInput("invalid task id".to_string()));
        }
        let digit = (c as u32 - '0' as u32) as u128;
        assert(d.take(i - start + 1).drop_last() =~= d.take(i - start));
        m = m * 10 + digit;
        assert(d.take(i - start + 1).last() == c);
        assert(m == digits_value(d.take(i - start + 1)));
        if m > limit {
            proof {
                let k = i - start + 1;
                assert forall|q: int| 0 <= q < k implies is_digit(#[trigger] d.take(k)[q]) by {}
                if forall|q: int| 0 <= q < d.len() ==> is_digit(#[trigger] d[q]) {
                    lemma_digits_grow(d, k, d.len() as int);
                    assert(d.take(d.len() as int) =~= d);
                }
            }
            return Err(AppError::InvalidInput("invalid task id".to_string()));
        }
        i += 1;
    }
    assert(d.take(n - start) =~= d);
    if negative {
        Ok((0 - m as i128) as i64)
    } else {
        Ok(m as i64)
    }
}

fn not_found() -> (r: Reply)
    ensures
        is_not_found_reply(r),
{
    proof {
        reveal_strlit("Task not found");
    }
    Reply { status: 404, body: Body::Text("Task not found".to_string()) }
}

/// GET /: the listing page.
pub fn index(tasks: Vec<Task>) -> (r: IndexTemplate)
    ensures
        r.tasks == tasks,
{
    IndexTemplate { tasks }
}

/// GET /tasks: 200 with the tasks.
pub fn list_tasks(tasks: Vec<Task>) -> (r: Reply)
    ensures
        r.status == 200,
        r.body == Body::Tasks(tasks),
{
    Reply { status: 200, body: Body::Tasks(tasks) }
}

/// POST /tasks: 201 with the created task, or the store's error.
pub fn create_task(outcome: Result<Task, StoreError>) -> (r: Result<Reply, AppError>)
    ensures
        outcome matches Ok(t) ==> (r matches Ok(p) && p.status == 201 && p.body == Body::Task(t)),
        outcome == Err::<Task, StoreError>(StoreError::InvalidInput) ==> r matches Err(
            AppError::InvalidInput(_),
        ),
        outcome == Err::<Task, StoreError>(StoreError::Unavailable) ==> r matches Err(
            AppError::StoreUnavailable(_),
        ),
{
    match outcome {
        Ok(t) => Ok(Reply { status: 201, body: Body::Task(t) }),
        Err(e) => Err(AppError::from_store(e)),
    }
}

/// 200 with the task, or 404 when there was none.
fn task_or_not_found(found: Option<Task>) -> (r: Reply)
    ensures
        found matches Some(t) ==> (r.status == 200 && r.body == Body::Task(t)),
        found is None ==> is_not_found_reply(r),
{
    match found {
        Some(t) => Reply { status: 200, body: Body::Task(t) },
        None => not_found(),
    }
}

/// POST /tasks/{id}/complete: 200 with the task, or 404.
pub fn complete_task(found: Option<Task>) -> (r: Reply)
    ensures
        found matches Some(t) ==> (r.status == 200 && r.body == Body::Task(t)),
        found is None ==> is_not_found_reply(r),
{
    task_or_not_found(found)
}

/// POST /tasks/{id}/toggle: 200 with the task, or 404.
pub fn toggle_task(found: Option<Task>) -> (r: Reply)
    ensures
        found matches Some(t) ==> (r.status == 200 && r.body == Body::Task(t)),
        found is None ==> is_not_found_reply(r),
{
    task_or_not_found(found)
}

/// PUT /tasks/{id}: 200 with the task, 404, or the store's error.
pub fn update_task(outcome: Result<Option<Task>, StoreError>) -> (r: Result<Reply, AppError>)
    ensures
        outcome matches Ok(Some(t)) ==> (r matches Ok(p) && p.status == 200 && p.body
            == Body::Task(t)),
        outcome matches Ok(None) ==> (r matches Ok(p) && is_not_found_reply(p)),
        outcome == Err::<Option<Task>, StoreError>(StoreError::InvalidInput) ==> r matches Err(
            AppError::InvalidInput(_),
        ),
        outcome == Err::<Option<Task>, StoreError>(StoreError::Unavailable) ==> r matches Err(
            AppError::StoreUnavailable(_),
        ),
{
    match outcome {
        Ok(found) => Ok(task_or_not_found(found)),
        Err(e) => Err(AppError::from_store(e)),
    }
}

/// DELETE /tasks/{id}: 204 with no body, or 404.
pub fn delete_task(removed: bool) -> (r: Reply)
    ensures
        removed ==> r.status == 204 && r.body is Empty,
        !removed ==> is_not_found_reply(r),
{
    if removed {
        Reply { status: 204, body: Body::Empty }
    } else {
        not_found()
    }
}

} // verus!
