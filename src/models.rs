use vstd::prelude::*;

verus! {

/// A persisted to-do item.
#[derive(Debug)]
pub struct Task {
    pub id: i64,
    pub title: String,
    pub completed: bool,
    pub created_at: String,
}

/// Body of a create request.
pub struct CreateTask {
    pub title: String,
}

/// Body of a title update request.
pub struct UpdateTask {
    pub title: String,
}

/// The mathematical value of a task.
pub struct TaskView {
    pub id: int,
    pub title: Seq<char>,
    pub completed: bool,
    pub created_at: Seq<char>,
}

impl View for Task {
    type V = TaskView;

    open spec fn view(&self) -> TaskView {
        TaskView {
            id: self.id as int,
            title: self.title@,
            completed: self.completed,
            created_at: self.created_at@,
        }
    }
}

/// Byte-wise lexicographic "strictly less" on byte strings, the order in
/// which timestamps are compared.
pub open spec fn bytes_lt(a: Seq<u8>, b: Seq<u8>) -> bool
    decreases a.len(),
{
    if a.len() == 0 {
        b.len() > 0
    } else if b.len() == 0 {
        false
    } else if a[0] != b[0] {
        a[0] < b[0]
    } else {
        bytes_lt(a.drop_first(), b.drop_first())
    }
}

/// The UTF-8 encoding of a text, the form in which timestamps are ordered.
pub open spec fn utf8_of(s: Seq<char>) -> Seq<u8> {
    vstd::utf8::encode_utf8(s)
}

/// Timestamp order: `a` sorts strictly before `b`.
pub open spec fn stamp_lt(a: Seq<char>, b: Seq<char>) -> bool {
    bytes_lt(utf8_of(a), utf8_of(b))
}

/// No byte string sorts before itself.
pub proof fn lemma_bytes_lt_irreflexive(a: Seq<u8>)
    ensures
        !bytes_lt(a, a),
    decreases a.len(),
{
    if a.len() > 0 {
        lemma_bytes_lt_irreflexive(a.drop_first());
    }
}

/// Any two byte strings are ordered one way, the other way, or equal.
pub proof fn lemma_bytes_lt_total(a: Seq<u8>, b: Seq<u8>)
    ensures
        bytes_lt(a, b) || bytes_lt(b, a) || a == b,
        !(bytes_lt(a, b) && bytes_lt(b, a)),
    decreases a.len(),
{
    if a.len() > 0 && b.len() > 0 && a[0] == b[0] {
        lemma_bytes_lt_total(a.drop_first(), b.drop_first());
        if a.drop_first() == b.drop_first() {
            assert(a =~= seq![a[0]] + a.drop_first());
            assert(b =~= seq![b[0]] + b.drop_first());
        }
    } else if a.len() == 0 && b.len() == 0 {
        assert(a =~= b);
    }
}

/// The byte order is transitive.
pub proof fn lemma_bytes_lt_transitive(a: Seq<u8>, b: Seq<u8>, c: Seq<u8>)
    requires
        bytes_lt(a, b),
        bytes_lt(b, c),
    ensures
        bytes_lt(a, c),
    decreases a.len(),
{
    if a.len() > 0 && b.len() > 0 && c.len() > 0 && a[0] == b[0] && b[0] == c[0] {
        lemma_bytes_lt_transitive(a.drop_first(), b.drop_first(), c.drop_first());
    }
}


/// Sort key of stored rows: timestamp first, then id.
pub open spec fn key_lt(a: TaskView, b: TaskView) -> bool {
    stamp_lt(a.created_at, b.created_at) || (a.created_at == b.created_at && a.id < b.id)
}

/// Some row carries the id.
pub open spec fn has_id(rows: Seq<TaskView>, id: int) -> bool {
    exists|i: int| 0 <= i < rows.len() && rows[i].id == id
}

/// The position of the row with the id.
pub open spec fn index_of(rows: Seq<TaskView>, id: int) -> int {
    choose|i: int| 0 <= i < rows.len() && rows[i].id == id
}

/// The row with the id.
pub open spec fn row_of(rows: Seq<TaskView>, id: int) -> TaskView {
    rows[index_of(rows, id)]
}

/// The row with `completed` set to `value`.
pub open spec fn with_completed(t: TaskView, value: bool) -> TaskView {
    TaskView { id: t.id, title: t.title, completed: value, created_at: t.created_at }
}

/// The row with a new title.
pub open spec fn with_title(t: TaskView, title: Seq<char>) -> TaskView {
    TaskView { id: t.id, title: title, completed: t.completed, created_at: t.created_at }
}

/// Rows after marking the task with the id completed.
pub open spec fn marked_completed(rows: Seq<TaskView>, id: int) -> Seq<TaskView> {
    rows.map_values(|t: TaskView| if t.id == id { with_completed(t, true) } else { t })
}

/// Rows after flipping the completion flag of the task with the id.
pub open spec fn flipped(rows: Seq<TaskView>, id: int) -> Seq<TaskView> {
    rows.map_values(|t: TaskView| if t.id == id { with_completed(t, !t.completed) } else { t })
}

/// Rows after giving the task with the id a new title.
pub open spec fn retitled(rows: Seq<TaskView>, id: int, title: Seq<char>) -> Seq<TaskView> {
    rows.map_values(|t: TaskView| if t.id == id { with_title(t, title) } else { t })
}

/// Rows after deleting the task with the id.
pub open spec fn removed(rows: Seq<TaskView>, id: int) -> Seq<TaskView> {
    if has_id(rows, id) {
        rows.remove(index_of(rows, id))
    } else {
        rows
    }
}

/// The row that a create stores.
pub open spec fn created_row(id: int, title: Seq<char>, now: Seq<char>) -> TaskView {
    TaskView { id: id, title: title, completed: false, created_at: now }
}

/// Listing order: newest first.
pub open spec fn newest_first(rows: Seq<TaskView>) -> Seq<TaskView> {
    rows.reverse()
}

/// Well-formed stored rows, given the next id to hand out: ids lie in
/// `1..next_id` and are unique, titles are non-empty, rows are kept in
/// ascending key order.
pub open spec fn rows_wf(rows: Seq<TaskView>, next_id: int) -> bool {
    &&& 1 <= next_id <= i64::MAX
    &&& forall|i: int| 0 <= i < rows.len() ==> 1 <= #[trigger] rows[i].id < next_id
    &&& forall|i: int| 0 <= i < rows.len() ==> #[trigger] rows[i].title.len() > 0
    &&& forall|i: int, j: int|
        0 <= i < j < rows.len() ==> key_lt(#[trigger] rows[i], #[trigger] rows[j])
    &&& forall|i: int, j: int|
        0 <= i < rows.len() && 0 <= j < rows.len() && i != j ==> #[trigger] rows[i].id
            != #[trigger] rows[j].id
}

/// In well-formed rows a row's id leads back to its own position.
pub proof fn lemma_index_of(rows: Seq<TaskView>, next_id: int, i: int)
    requires
        rows_wf(rows, next_id),
        0 <= i < rows.len(),
    ensures
        has_id(rows, rows[i].id),
        index_of(rows, rows[i].id) == i,
{
    let k = index_of(rows, rows[i].id);
    assert(0 <= k < rows.len() && rows[k].id == rows[i].id);
}

impl Task {
    /// A field-by-field copy.
    pub fn duplicate(&self) -> (r: Task)
        ensures
            r@ == self@,
    {
        Task {
            id: self.id,
            title: self.title.clone(),
            completed: self.completed,
            created_at: self.created_at.clone(),
        }
    }
}

/// Whether a conditional write found its row: the affected-row count is the
/// sole signal that the targeted id exists.
pub fn row_existed(rows_affected: u64) -> (r: bool)
    ensures
        r == (rows_affected > 0),
{
    rows_affected > 0
}

/// Why the store could not carry out an operation.
#[derive(PartialEq, Eq, Structural, Clone, Copy, Debug)]
pub enum StoreError {
    /// A required field was empty or malformed.
    InvalidInput,
    /// The store cannot complete the write (here: the id space is used up).
    Unavailable,
}

/// A title must not be empty.
pub fn check_title(title: &str) -> (r: Result<(), StoreError>)
    ensures
        r is Ok <==> title@.len() > 0,
        r is Err ==> r == Err::<(), StoreError>(StoreError::InvalidInput),
{
    if title.is_empty() {
        Err(StoreError::InvalidInput)
    } else {
        Ok(())
    }
}

/// Timestamp order on texts, computed on their UTF-8 bytes.
pub fn stamp_before(a: &str, b: &str) -> (r: bool)
    ensures
        r == stamp_lt(a@, b@),
{
    let x = a.as_bytes();
    let y = b.as_bytes();
    assert(x@ == utf8_of(a@));
    assert(y@ == utf8_of(b@));
    let mut i: usize = 0;
    assert(x@.skip(0) =~= x@);
    assert(y@.skip(0) =~= y@);
    while i < x.len() && i < y.len() && x[i] == y[i]
        invariant
            i <= x@.len(),
            i <= y@.len(),
            bytes_lt(x@, y@) == bytes_lt(x@.skip(i as int), y@.skip(i as int)),
        decreases x.len() - i,
    {
        assert(x@.skip(i as int).drop_first() =~= x@.skip(i + 1));
        assert(y@.skip(i as int).drop_first() =~= y@.skip(i + 1));
        i += 1;
    }
    if i == x.len() {
        i < y.len()
    } else if i == y.len() {
        false
    } else {
        x[i] < y[i]
    }
}

/// A single-row change applied by an update filtered by id.
enum Change {
    MarkCompleted,
    FlipCompleted,
    SetTitle(String),
}

spec fn changed(t: TaskView, c: Change) -> TaskView {
    match c {
        Change::MarkCompleted => with_completed(t, true),
        Change::FlipCompleted => with_completed(t, !t.completed),
        Change::SetTitle(s) => with_title(t, s@),
    }
}

spec fn after_change(rows: Seq<TaskView>, id: int, c: Change) -> Seq<TaskView> {
    rows.map_values(|t: TaskView| if t.id == id { changed(t, c) } else { t })
}

/// An in-memory table of tasks.
pub struct TaskStore {
    rows: Vec<Task>,
    next_id: i64,
}

impl View for TaskStore {
    type V = Seq<TaskView>;

    closed spec fn view(&self) -> Seq<TaskView> {
        self.rows@.map_values(|t: Task| t@)
    }
}

impl TaskStore {
    /// The id that the next created task receives.
    pub closed spec fn spec_next_id(&self) -> int {
        self.next_id as int
    }

    /// The table's invariant over its rows and next id.
    pub open spec fn wf(&self) -> bool {
        rows_wf(self@, self.spec_next_id())
    }

    /// An empty store whose first task gets id 1.
    pub fn new() -> (r: TaskStore)
        ensures
            r.wf(),
            r@ == Seq::<TaskView>::empty(),
            r.spec_next_id() == 1,
    {
        let r = TaskStore { rows: Vec::new(), next_id: 1 };
        assert(r@ =~= Seq::<TaskView>::empty());
        r
    }

    /// Number of stored tasks.
    pub fn len(&self) -> (r: usize)
        ensures
            r == self@.len(),
    {
        self.rows.len()
    }

    /// The position of the row with the id, if any.
    fn position_of(&self, id: i64) -> (r: Option<usize>)
        requires
            self.wf(),
        ensures
            r is Some <==> has_id(self@, id as int),
            r matches Some(i) ==> i == index_of(self@, id as int) && i < self@.len()
                && self@[i as int].id == id,
    {
        let mut i: usize = 0;
        while i < self.rows.len()
            invariant
                self.wf(),
                i <= self.rows.len(),
                forall|j: int| 0 <= j < i ==> self@[j].id != id,
            decreases self.rows.len() - i,
        {
            if self.rows[i].id == id {
                proof {
                    lemma_index_of(self@, self.spec_next_id(), i as int);
                }
                return Some(i);
            }
            i += 1;
        }
        None
    }

    /// The row with the id, read back after a write.
    fn fetch_optional(&self, id: i64) -> (r: Option<Task>)
        requires
            self.wf(),
        ensures
            r is Some <==> has_id(self@, id as int),
            r matches Some(t) ==> t@ == row_of(self@, id as int),
    {
        match self.position_of(id) {
            Some(i) => Some(self.rows[i].duplicate()),
            None => None,
        }
    }

    /// `INSERT`: stores a new row with the next id, kept in key order, and
    /// returns that id.
    fn execute_insert(&mut self, title: &str, now: &str) -> (id: i64)
        requires
            old(self).wf(),
            title@.len() > 0,
            old(self).spec_next_id() < i64::MAX,
        ensures
            final(self).wf(),
            id == old(self).spec_next_id(),
            final(self).spec_next_id() == old(self).spec_next_id() + 1,
            exists|p: int|
                0 <= p <= old(self)@.len() && final(self)@ == old(self)@.insert(
                    p,
                    created_row(id as int, title@, now@),
                ),
    {
        let ghost before = self@;
        let id = self.next_id;
        let t = Task { id, title: title.to_owned(), completed: false, created_at: now.to_owned() };
        let mut p: usize = self.rows.len();
        while p > 0 && stamp_before(now, self.rows[p - 1].created_at.as_str())
            invariant
                self@ == before,
                p <= self.rows.len(),
                forall|j: int| p <= j < before.len() ==> stamp_lt(now@, #[trigger] before[j].created_at),
            decreases p,
        {
            p -= 1;
        }
        proof {
            lemma_insert_keeps_wf(before, self.next_id as int, p as int, t@);
        }
        self.rows.insert(p, t);
        self.next_id = self.next_id + 1;
        assert(self@ =~= before.insert(p as int, created_row(id as int, title@, now@)));
        id
    }

    /// `DELETE .. WHERE id = ?`: removes the row with the id and reports how
    /// many rows it removed.
    fn execute_delete(&mut self, id: i64) -> (n: u64)
        requires
            old(self).wf(),
        ensures
            final(self).wf(),
            final(self)@ == removed(old(self)@, id as int),
            final(self).spec_next_id() == old(self).spec_next_id(),
            n == (if has_id(old(self)@, id as int) { 1u64 } else { 0u64 }),
    {
        let ghost before = self@;
        match self.position_of(id) {
            None => 0,
            Some(i) => {
                let _gone = self.rows.remove(i);
                let ghost r = before.remove(i as int);
                assert(self@ =~= r);
                assert forall|a: int, b: int| 0 <= a < b < r.len() implies key_lt(
                    #[trigger] r[a],
                    #[trigger] r[b],
                ) by {
                    let a0 = if a < i { a } else { a + 1 };
                    let b0 = if b < i { b } else { b + 1 };
                    assert(key_lt(before[a0], before[b0]));
                }
                assert forall|a: int, b: int|
                    0 <= a < r.len() && 0 <= b < r.len() && a != b implies #[trigger] r[a].id
                    != #[trigger] r[b].id by {
                    let a0 = if a < i { a } else { a + 1 };
                    let b0 = if b < i { b } else { b + 1 };
                    assert(before[a0].id != before[b0].id);
                }
                assert forall|a: int| 0 <= a < r.len() implies 1 <= #[trigger] r[a].id
                    < self.next_id && r[a].title.len() > 0 by {
                    let a0 = if a < i { a } else { a + 1 };
                    assert(1 <= before[a0].id < self.next_id);
                    assert(before[a0].title.len() > 0);
                }
                1
            },
        }
    }

    /// `UPDATE .. WHERE id = ?`: applies the change to the row with the id
    /// and reports how many rows it touched.
    fn execute_change(&mut self, id: i64, change: Change) -> (n: u64)
        requires
            old(self).wf(),
            change matches Change::SetTitle(s) ==> s@.len() > 0,
        ensures
            final(self).wf(),
            final(self)@ == after_change(old(self)@, id as int, change),
            final(self).spec_next_id() == old(self).spec_next_id(),
            has_id(final(self)@, id as int) == has_id(old(self)@, id as int),
            n == (if has_id(old(self)@, id as int) { 1u64 } else { 0u64 }),
    {
        let ghost before = self@;
        match self.position_of(id) {
            None => {
                assert(after_change(before, id as int, change) =~= before);
                0
            },
            Some(i) => {
                let t = Task {
                    id: self.rows[i].id,
                    title: match &change {
                        Change::SetTitle(s) => s.clone(),
                        _ => self.rows[i].title.clone(),
                    },
                    completed: match &change {
                        Change::MarkCompleted => true,
                        Change::FlipCompleted => !self.rows[i].completed,
                        Change::SetTitle(_) => self.rows[i].completed,
                    },
                    created_at: self.rows[i].created_at.clone(),
                };
                self.rows.set(i, t);
                proof {
                    let after = after_change(before, id as int, change);
                    assert forall|j: int| 0 <= j < before.len() implies self@[j] == after[j] by {
                        if j != i {
                            assert(before[j].id != id);
                        }
                    }
                    assert(self@ =~= after);
                    assert(self@[i as int].id == id);
                }
                1
            },
        }
    }
}

/// Rows that stay well formed after a new row goes in at `p`: all rows from
/// `p` on are newer than it, and the row before `p`, if any, is not.
pub proof fn lemma_insert_keeps_wf(rows: Seq<TaskView>, next_id: int, p: int, t: TaskView)
    requires
        rows_wf(rows, next_id),
        next_id < i64::MAX,
        0 <= p <= rows.len(),
        t.id == next_id,
        t.title.len() > 0,
        forall|j: int| p <= j < rows.len() ==> stamp_lt(t.created_at, #[trigger] rows[j].created_at),
        p > 0 ==> !stamp_lt(t.created_at, rows[p - 1].created_at),
    ensures
        rows_wf(rows.insert(p, t), next_id + 1),
{
    let r = rows.insert(p, t);
    assert forall|i: int| 0 <= i < p implies key_lt(#[trigger] rows[i], t) by {
        let ci = utf8_of(rows[i].created_at);
        let cl = utf8_of(rows[p - 1].created_at);
        let cn = utf8_of(t.created_at);
        lemma_bytes_lt_total(cl, cn);
        if i < p - 1 {
            assert(key_lt(rows[i], rows[p - 1]));
            if bytes_lt(ci, cl) && bytes_lt(cl, cn) {
                lemma_bytes_lt_transitive(ci, cl, cn);
            }
        }
        if rows[i].created_at == t.created_at {
        } else if bytes_lt(ci, cn) {
        } else {
            if i < p - 1 {
                assert(rows[i].created_at == rows[p - 1].created_at || bytes_lt(ci, cl));
            }
            assert(ci == cn ==> rows[i].created_at == t.created_at) by {
                if ci == cn {
                    vstd::utf8::encode_utf8_decode_utf8(rows[i].created_at);
                    vstd::utf8::encode_utf8_decode_utf8(t.created_at);
                }
            }
            assert(cl == cn ==> rows[p - 1].created_at == t.created_at) by {
                if cl == cn {
                    vstd::utf8::encode_utf8_decode_utf8(rows[p - 1].created_at);
                    vstd::utf8::encode_utf8_decode_utf8(t.created_at);
                }
            }
        }
    }
    assert forall|i: int, j: int| 0 <= i < j < r.len() implies key_lt(#[trigger] r[i], #[trigger] r[j]) by {
        if j < p {
        } else if j == p {
        } else if i < p {
            assert(key_lt(rows[i], rows[j - 1]));
        } else if i == p {
        } else {
            assert(key_lt(rows[i - 1], rows[j - 1]));
        }
    }
    assert forall|i: int, j: int|
        0 <= i < r.len() && 0 <= j < r.len() && i != j implies #[trigger] r[i].id != #[trigger] r[j].id by {
        if i != p && j != p {
            let i0 = if i < p { i } else { i - 1 };
            let j0 = if j < p { j } else { j - 1 };
            assert(rows[i0].id != rows[j0].id);
        }
    }
    assert forall|i: int| 0 <= i < r.len() implies 1 <= #[trigger] r[i].id < next_id + 1 by {
        if i < p {
        } else if i > p {
            assert(1 <= rows[i - 1].id < next_id);
        }
    }
    assert forall|i: int| 0 <= i < r.len() implies #[trigger] r[i].title.len() > 0 by {
        if i < p {
        } else if i > p {
            assert(rows[i - 1].title.len() > 0);
        }
    }
}

impl Task {
    /// All tasks, newest first.
    pub fn get_all(store: &TaskStore) -> (r: Vec<Task>)
        requires
            store.wf(),
        ensures
            r@.map_values(|t: Task| t@) == newest_first(store@),
    {
        let mut out: Vec<Task> = Vec::new();
        let mut k: usize = store.rows.len();
        while k > 0
            invariant
                k <= store.rows.len(),
                out@.len() == store.rows.len() - k,
                forall|j: int|
                    0 <= j < out@.len() ==> #[trigger] out@[j]@ == store@[store@.len() - 1 - j],
            decreases k,
        {
            k -= 1;
            out.push(store.rows[k].duplicate());
        }
        assert(out@.map_values(|t: Task| t@) =~= newest_first(store@));
        out
    }

    /// Creates a task with the given title, stamped `now`, not completed.
    /// Fails with `InvalidInput` on an empty title and with `Unavailable`
    /// once the id space is used up; a failed call changes nothing.
    pub fn create(store: &mut TaskStore, title: &str, now: &str) -> (r: Result<Task, StoreError>)
        requires
            old(store).wf(),
        ensures
            final(store).wf(),
            title@.len() == 0 ==> r == Err::<Task, StoreError>(StoreError::InvalidInput),
            title@.len() > 0 && old(store).spec_next_id() == i64::MAX ==> r == Err::<
                Task,
                StoreError,
            >(StoreError::Unavailable),
            r is Err ==> final(store)@ == old(store)@ && final(store).spec_next_id()
                == old(store).spec_next_id(),
            title@.len() > 0 && old(store).spec_next_id() < i64::MAX ==> {
                &&& r is Ok
                &&& r->Ok_0@ == created_row(old(store).spec_next_id(), title@, now@)
                &&& final(store).spec_next_id() == old(store).spec_next_id() + 1
                &&& exists|p: int|
                    0 <= p <= old(store)@.len() && final(store)@ == old(store)@.insert(
                        p,
                        r->Ok_0@,
                    )
            },
    {
        if let Err(e) = check_title(title) {
            return Err(e);
        }
        if store.next_id == i64::MAX {
            return Err(StoreError::Unavailable);
        }
        let id = store.execute_insert(title, now);
        let ghost p = choose|p: int|
            0 <= p <= old(store)@.len() && store@ == old(store)@.insert(
                p,
                created_row(id as int, title@, now@),
            );
        assert(store@[p].id == id);
        proof {
            lemma_index_of(store@, store.spec_next_id(), p);
        }
        match store.fetch_optional(id) {
            Some(t) => Ok(t),
            None => Err(StoreError::Unavailable),
        }
    }

    /// Gives the task with the id a new title. Fails with `InvalidInput` on
    /// an empty title; `Ok(None)` when no task has the id.
    pub fn update(store: &mut TaskStore, id: i64, title: &str) -> (r: Result<Option<Task>, StoreError>)
        requires
            old(store).wf(),
        ensures
            final(store).wf(),
            final(store).spec_next_id() == old(store).spec_next_id(),
            title@.len() == 0 ==> r == Err::<Option<Task>, StoreError>(StoreError::InvalidInput)
                && final(store)@ == old(store)@,
            title@.len() > 0 ==> {
                &&& r is Ok
                &&& final(store)@ == retitled(old(store)@, id as int, title@)
                &&& r->Ok_0 is Some <==> has_id(old(store)@, id as int)
            },
            r matches Ok(Some(t)) ==> t@ == row_of(final(store)@, id as int),
    {
        if let Err(e) = check_title(title) {
            return Err(e);
        }
        let owned = title.to_owned();
        let ghost change = Change::SetTitle(owned);
        let n = store.execute_change(id, Change::SetTitle(owned));
        assert(after_change(old(store)@, id as int, change) =~= retitled(
            old(store)@,
            id as int,
            title@,
        ));
        if !row_existed(n) {
            return Ok(None);
        }
        Ok(store.fetch_optional(id))
    }

    /// Deletes the task with the id; `true` when a row was removed.
    pub fn delete(store: &mut TaskStore, id: i64) -> (r: bool)
        requires
            old(store).wf(),
        ensures
            final(store).wf(),
            final(store)@ == removed(old(store)@, id as int),
            final(store).spec_next_id() == old(store).spec_next_id(),
            r == has_id(old(store)@, id as int),
    {
        let n = store.execute_delete(id);
        row_existed(n)
    }

    /// Marks the task with the id completed. `None` when no task has the id.
    pub fn complete(store: &mut TaskStore, id: i64) -> (r: Option<Task>)
        requires
            old(store).wf(),
        ensures
            final(store).wf(),
            final(store)@ == marked_completed(old(store)@, id as int),
            final(store).spec_next_id() == old(store).spec_next_id(),
            r is Some <==> has_id(old(store)@, id as int),
            r matches Some(t) ==> t@ == row_of(final(store)@, id as int),
    {
        let n = store.execute_change(id, Change::MarkCompleted);
        assert(after_change(old(store)@, id as int, Change::MarkCompleted) =~= marked_completed(
            old(store)@,
            id as int,
        ));
        if !row_existed(n) {
            return None;
        }
        store.fetch_optional(id)
    }

    /// Flips the completion flag of the task with the id. `None` when no task
    /// has the id.
    pub fn toggle(store: &mut TaskStore, id: i64) -> (r: Option<Task>)
        requires
            old(store).wf(),
        ensures
            final(store).wf(),
            final(store)@ == flipped(old(store)@, id as int),
            final(store).spec_next_id() == old(store).spec_next_id(),
            r is Some <==> has_id(old(store)@, id as int),
            r matches Some(t) ==> t@ == row_of(final(store)@, id as int),
    {
        let n = store.execute_change(id, Change::FlipCompleted);
        assert(after_change(old(store)@, id as int, Change::FlipCompleted) =~= flipped(
            old(store)@,
            id as int,
        ));
        if !row_existed(n) {
            return None;
        }
        store.fetch_optional(id)
    }
}

/// Marking a task completed twice leaves the same rows as marking it once,
/// so the second call also returns the same task.
pub proof fn lemma_complete_idempotent(rows: Seq<TaskView>, id: int)
    ensures
        marked_completed(marked_completed(rows, id), id) == marked_completed(rows, id),
        row_of(marked_completed(marked_completed(rows, id), id), id) == row_of(
            marked_completed(rows, id),
            id,
        ),
{
    assert(marked_completed(marked_completed(rows, id), id) =~= marked_completed(rows, id));
}

/// Toggling an existing task flips its flag; toggling it twice restores the
/// rows exactly.
pub proof fn lemma_toggle_flips(rows: Seq<TaskView>, next_id: int, id: int)
    requires
        rows_wf(rows, next_id),
        has_id(rows, id),
    ensures
        row_of(flipped(rows, id), id).completed == !row_of(rows, id).completed,
        flipped(flipped(rows, id), id) == rows,
{
    let i = index_of(rows, id);
    let f = flipped(rows, id);
    assert(f[i].id == id);
    let k = index_of(f, id);
    assert(f[k].id == id);
    if k != i {
        assert(rows[k].id != rows[i].id);
    }
    assert(flipped(f, id) =~= rows);
}

/// A created task shows up in the listing with its id and title, not
/// completed.
pub proof fn lemma_created_is_listed(
    rows: Seq<TaskView>,
    p: int,
    id: int,
    title: Seq<char>,
    now: Seq<char>,
)
    requires
        0 <= p <= rows.len(),
    ensures
        exists|k: int|
            0 <= k < rows.len() + 1 && #[trigger] newest_first(
                rows.insert(p, created_row(id, title, now)),
            )[k] == created_row(id, title, now),
        created_row(id, title, now).id == id,
        created_row(id, title, now).title == title,
        !created_row(id, title, now).completed,
{
    let l = newest_first(rows.insert(p, created_row(id, title, now)));
    assert(l[rows.len() - p] == created_row(id, title, now));
}

/// After a delete no row has the id: completing, toggling, retitling or
/// deleting it again all report that it is not found.
pub proof fn lemma_deleted_is_gone(rows: Seq<TaskView>, next_id: int, id: int)
    requires
        rows_wf(rows, next_id),
    ensures
        !has_id(removed(rows, id), id),
{
    if has_id(rows, id) {
        let i = index_of(rows, id);
        let r = removed(rows, id);
        assert forall|k: int| 0 <= k < r.len() implies r[k].id != id by {
            let k0 = if k < i { k } else { k + 1 };
            assert(rows[k0].id != rows[i].id);
        }
    }
}

/// The listing never puts an older task before a newer one: when the task at
/// listing position `i` is stamped strictly earlier than the one at `j`, it
/// comes after it.
pub proof fn lemma_listing_newest_first(rows: Seq<TaskView>, next_id: int, i: int, j: int)
    requires
        rows_wf(rows, next_id),
        0 <= i < rows.len(),
        0 <= j < rows.len(),
        stamp_lt(newest_first(rows)[i].created_at, newest_first(rows)[j].created_at),
    ensures
        j < i,
{
    let l = newest_first(rows);
    let ci = utf8_of(l[i].created_at);
    let cj = utf8_of(l[j].created_at);
    lemma_bytes_lt_irreflexive(ci);
    lemma_bytes_lt_total(ci, cj);
    if i < j {
        assert(key_lt(rows[rows.len() - 1 - j], rows[rows.len() - 1 - i]));
    }
}

} // verus!
